//! Device identity: an Ed25519 key pair and its decentralized identifier
//! `did:sentinel:<hex of SHA-256 of the public key>`.

use vstd::prelude::*;
use vstd::utf8::*;
use crate::crypto::{
    check_public_key, derive_public_key, ed25519_key_decodes, ed25519_public_key, ed25519_sign,
    ed25519_verify, generate_secret, point_decompression_text, sha256, sha256_digest,
    sign_message, verify_signature,
};
use crate::hex_codec::{hex_decode, hex_decoded, hex_encode, hex_text, is_hex_byte, upper_bytes, HexError};
use crate::json::JsonValue;
use crate::text::{decimal, decimal_text};
use crate::time::Timestamp;

verus! {

/// Why an identity operation failed.
#[derive(Debug)]
pub enum IdentityError {
    /// A public key of the given length, not 32 bytes.
    InvalidPublicKey(usize),
    /// A secret key of the given length, not 32 bytes.
    InvalidSecretKey(usize),
    /// A signature or key that cannot be used, with the reason.
    InvalidSignature(String),
    /// Text that is not a DID, with the reason.
    InvalidDid(String),
    /// Text that is not hexadecimal.
    Hex(HexError),
}

/// `IdentityError` with its messages as character sequences.
pub enum IdentityFault {
    InvalidPublicKey(usize),
    InvalidSecretKey(usize),
    InvalidSignature(Seq<char>),
    InvalidDid(Seq<char>),
    Hex(HexError),
}

impl View for IdentityError {
    type V = IdentityFault;

    open spec fn view(&self) -> IdentityFault {
        match self {
            IdentityError::InvalidPublicKey(n) => IdentityFault::InvalidPublicKey(*n),
            IdentityError::InvalidSecretKey(n) => IdentityFault::InvalidSecretKey(*n),
            IdentityError::InvalidSignature(m) => IdentityFault::InvalidSignature(m@),
            IdentityError::InvalidDid(m) => IdentityFault::InvalidDid(m@),
            IdentityError::Hex(e) => IdentityFault::Hex(*e),
        }
    }
}

/// `did:sentinel:`
pub open spec fn did_prefix() -> Seq<char> {
    seq!['d', 'i', 'd', ':', 's', 'e', 'n', 't', 'i', 'n', 'e', 'l', ':']
}

/// The DID of the public key `pk`.
pub open spec fn did_text(pk: Seq<u8>) -> Seq<char> {
    did_prefix() + hex_text(sha256(pk))
}

pub open spec fn missing_prefix_text() -> Seq<char> {
    "missing `did:sentinel:` prefix"@
}

pub open spec fn body_length_text(n: nat) -> Seq<char> {
    "expected 64-hex body, got "@ + decimal_text(n) + " chars"@
}

pub open spec fn signature_length_text(n: nat) -> Seq<char> {
    "expected 64-byte signature, got "@ + decimal_text(n)
}

/// Parsing `s` as a DID: the prefix `did:sentinel:` must stand first, then
/// exactly 64 bytes that are hexadecimal digits.
pub open spec fn did_parsed(s: Seq<char>) -> Result<Seq<char>, IdentityFault> {
    if !(s.len() >= 13 && s.take(13) == did_prefix()) {
        Err(IdentityFault::InvalidDid(missing_prefix_text()))
    } else if encode_utf8(s.skip(13)).len() != 64 {
        Err(IdentityFault::InvalidDid(body_length_text(encode_utf8(s.skip(13)).len())))
    } else {
        match hex_decoded(encode_utf8(s.skip(13))) {
            Err(e) => Err(IdentityFault::Hex(e)),
            Ok(_) => Ok(s),
        }
    }
}

/// Decoding a hex-encoded Ed25519 public key.
pub open spec fn public_key_from_hex(h: Seq<char>) -> Result<Seq<u8>, IdentityFault> {
    match hex_decoded(encode_utf8(h)) {
        Err(e) => Err(IdentityFault::Hex(e)),
        Ok(b) => if b.len() != 32 {
            Err(IdentityFault::InvalidPublicKey(b.len() as usize))
        } else if !ed25519_key_decodes(b) {
            Err(IdentityFault::InvalidSignature(point_decompression_text()))
        } else {
            Ok(b)
        },
    }
}

/// Verifying the hex-encoded signature `sig_hex` of `payload` against the
/// hex-encoded public key `pk_hex`.
pub open spec fn verify_hex_outcome(pk_hex: Seq<char>, payload: Seq<u8>, sig_hex: Seq<char>) -> Result<bool, IdentityFault> {
    match public_key_from_hex(pk_hex) {
        Err(f) => Err(f),
        Ok(pk) => match hex_decoded(encode_utf8(sig_hex)) {
            Err(e) => Err(IdentityFault::Hex(e)),
            Ok(sig) => if sig.len() != 64 {
                Err(IdentityFault::InvalidSignature(signature_length_text(sig.len())))
            } else {
                Ok(ed25519_verify(pk, payload, sig))
            },
        },
    }
}

/// `0-9`, `a-f` or `A-F`.
pub open spec fn is_hex_char(c: char) -> bool {
    ('0' <= c <= '9') || ('a' <= c <= 'f') || ('A' <= c <= 'F')
}

/// ASCII upper case of a character, as `to_ascii_uppercase` gives it.
pub open spec fn upper_char(c: char) -> char {
    if 'a' <= c <= 'z' {
        ((c as u32) - 32) as char
    } else {
        c
    }
}

/// `s` with its ASCII letters in upper case.
pub open spec fn upper_text(s: Seq<char>) -> Seq<char> {
    Seq::new(s.len(), |i: int| upper_char(s[i]))
}

proof fn lemma_upper_hex_text(s: Seq<char>)
    requires
        forall|i: int| 0 <= i < s.len() ==> is_hex_char(#[trigger] s[i]),
    ensures
        forall|i: int| 0 <= i < encode_utf8(s).len() ==> is_hex_byte(#[trigger] encode_utf8(s)[i]),
        encode_utf8(upper_text(s)) == upper_bytes(encode_utf8(s)),
{
    let u = upper_text(s);
    assert(is_ascii_chars(s));
    assert(is_ascii_chars(u)) by {
        assert forall|i: int| 0 <= i < u.len() implies '\0' <= #[trigger] u[i] <= '\u{7f}' by {
            assert(u[i] == upper_char(s[i]));
        }
    }
    is_ascii_chars_encode_utf8(s);
    is_ascii_chars_encode_utf8(u);
    let e = encode_utf8(s);
    assert forall|i: int| 0 <= i < e.len() implies is_hex_byte(#[trigger] e[i]) by {
        assert(e[i] == s[i] as u8);
    }
    assert forall|i: int| 0 <= i < e.len() implies #[trigger] encode_utf8(u)[i] == upper_bytes(e)[i] by {
        assert(e[i] == s[i] as u8);
        assert(encode_utf8(u)[i] == u[i] as u8);
        assert(u[i] == upper_char(s[i]));
    }
    assert(encode_utf8(u) =~= upper_bytes(e));
}

/// Verifying ignores the letter case of the hexadecimal key and signature:
/// for key and signature texts made of hexadecimal digits, upper-casing
/// their letters gives the same verdict or the same error.
pub proof fn law_verify_hex_ignores_case(pk_hex: Seq<char>, payload: Seq<u8>, sig_hex: Seq<char>)
    requires
        forall|i: int| 0 <= i < pk_hex.len() ==> is_hex_char(#[trigger] pk_hex[i]),
        forall|i: int| 0 <= i < sig_hex.len() ==> is_hex_char(#[trigger] sig_hex[i]),
    ensures
        verify_hex_outcome(upper_text(pk_hex), payload, upper_text(sig_hex))
            == verify_hex_outcome(pk_hex, payload, sig_hex),
{
    lemma_upper_hex_text(pk_hex);
    lemma_upper_hex_text(sig_hex);
    crate::hex_codec::law_hex_decoding_ignores_case(encode_utf8(pk_hex));
    crate::hex_codec::law_hex_decoding_ignores_case(encode_utf8(sig_hex));
}

/// A DID made from a public key parses back to itself: whatever 32-byte
/// digest follows the prefix in hex, `Did::parse` accepts the text unchanged.
pub proof fn law_did_parse_round_trip(digest: Seq<u8>)
    requires
        digest.len() == 32,
    ensures
        did_parsed(did_prefix() + hex_text(digest)) == Ok::<Seq<char>, IdentityFault>(did_prefix() + hex_text(digest)),
{
    let s = did_prefix() + hex_text(digest);
    assert(s.take(13) =~= did_prefix());
    assert(s.skip(13) =~= hex_text(digest));
    crate::hex_codec::lemma_hex_text_ascii(digest);
    crate::hex_codec::lemma_hex_round_trip(digest);
}

/// `Did::parse` accepts exactly the texts that are the prefix
/// `did:sentinel:` followed by exactly 64 bytes, all hexadecimal digits, and
/// gives each such text back unchanged.
pub proof fn law_did_parse_accepts_exactly(s: Seq<char>)
    ensures
        (did_parsed(s) is Ok) <==> {
            &&& s.len() >= 13
            &&& s.take(13) == seq!['d', 'i', 'd', ':', 's', 'e', 'n', 't', 'i', 'n', 'e', 'l', ':']
            &&& encode_utf8(s.skip(13)).len() == 64
            &&& forall|k: int| 0 <= k < 64 ==> is_hex_byte(#[trigger] encode_utf8(s.skip(13))[k])
        },
        did_parsed(s) matches Ok(d) ==> d == s,
{
    if s.len() >= 13 && s.take(13) == did_prefix() {
        crate::hex_codec::law_hex_decoded_ok_exactly(encode_utf8(s.skip(13)));
    }
}

/// Verifying succeeds exactly when the key text decodes to 32 bytes that
/// are an Ed25519 point and the signature text decodes to exactly 64 bytes;
/// the verdict is then whether those bytes are a valid signature of the
/// payload under that key.
pub proof fn law_verify_hex_ok_exactly(pk_hex: Seq<char>, payload: Seq<u8>, sig_hex: Seq<char>)
    ensures
        (verify_hex_outcome(pk_hex, payload, sig_hex) is Ok) <==> {
            &&& hex_decoded(encode_utf8(pk_hex)) matches Ok(k)
            &&& k.len() == 32
            &&& ed25519_key_decodes(k)
            &&& hex_decoded(encode_utf8(sig_hex)) matches Ok(sig)
            &&& sig.len() == 64
        },
        verify_hex_outcome(pk_hex, payload, sig_hex) matches Ok(b) ==> {
            &&& hex_decoded(encode_utf8(pk_hex)) matches Ok(k)
            &&& hex_decoded(encode_utf8(sig_hex)) matches Ok(sig)
            &&& b == ed25519_verify(k, payload, sig)
        },
{
}

/// Decentralized identifier in the form `did:sentinel:<64-hex-chars>`.
#[derive(Clone, Debug, PartialEq, Eq, Hash)]
pub struct Did(String);

impl View for Did {
    type V = Seq<char>;

    closed spec fn view(&self) -> Seq<char> {
        self.0@
    }
}

fn prefix_str() -> (s: &'static str)
    ensures
        s@ == did_prefix(),
{
    proof { reveal_strlit("did:sentinel:"); }
    "did:sentinel:"
}

fn did_from_key_bytes(pk: &[u8; 32]) -> (d: Did)
    ensures
        d@ == did_text(pk@),
        d@.len() == 77,
        did_parsed(d@) == Ok::<Seq<char>, IdentityFault>(d@),
{
    let digest = sha256_digest(pk);
    proof { law_did_parse_round_trip(digest@); }
    let body = hex_encode(&digest);
    let mut s = String::from_str(prefix_str());
    s.append(body.as_str());
    Did(s)
}

impl Did {
    pub const PREFIX: &'static str = "did:sentinel:";

    /// The DID of a public key: the prefix, then the lower-case hex of the
    /// SHA-256 digest of the key's 32 bytes.
    pub fn from_public_key(pk: &VerifyingKey) -> (d: Did)
        ensures
            d@ == did_text(pk@),
            d@.len() == 77,
            did_parsed(d@) == Ok::<Seq<char>, IdentityFault>(d@),
    {
        did_from_key_bytes(&pk.bytes)
    }

    /// The DID with the text `s`, taken as it is (as deserialising a DID
    /// takes it).
    pub fn from_string(s: String) -> (d: Did)
        ensures
            d@ == s@,
    {
        Did(s)
    }

    /// The DID as text.
    pub fn as_str(&self) -> (s: &str)
        ensures
            s@ == self@,
    {
        self.0.as_str()
    }

    /// The DID as an owned string, as `Display` writes it.
    pub fn to_string(&self) -> (s: String)
        ensures
            s@ == self@,
    {
        self.0.clone()
    }

    /// Parses `s` as a DID: refuses text without the prefix, a body that is
    /// not 64 bytes long, and a body that is not hexadecimal.
    pub fn parse(s: &str) -> (r: Result<Did, IdentityError>)
        ensures
            match r {
                Ok(d) => did_parsed(s@) == Ok::<Seq<char>, IdentityFault>(d@),
                Err(e) => did_parsed(s@) == Err::<Seq<char>, IdentityFault>(e@),
            },
    {
        let n = s.unicode_len();
        let p = prefix_str();
        let has_prefix = if n < 13 {
            false
        } else {
            let head = String::from_str(s.substring_char(0, 13));
            let pre = String::from_str(p);
            head == pre
        };
        if !has_prefix {
            assert(!(s@.len() >= 13 && s@.take(13) == did_prefix())) by {
                if s@.len() >= 13 {
                    assert(s@.subrange(0, 13) =~= s@.take(13));
                }
            }
            proof { reveal_strlit("missing `did:sentinel:` prefix"); }
            return Err(IdentityError::InvalidDid(String::from_str("missing `did:sentinel:` prefix")));
        }
        assert(s@.subrange(0, 13) =~= s@.take(13));
        let body = s.substring_char(13, n);
        assert(body@ =~= s@.skip(13));
        let len = body.as_bytes().len();
        if len != 64 {
            let mut m = String::from_str("expected 64-hex body, got ");
            let d = decimal(len as u64);
            m.append(d.as_str());
            m.append(" chars");
            proof {
                reveal_strlit("expected 64-hex body, got ");
                reveal_strlit(" chars");
                assert(len == encode_utf8(s@.skip(13)).len());
                assert(m@ == body_length_text(encode_utf8(s@.skip(13)).len()));
                assert(did_parsed(s@) == Err::<Seq<char>, IdentityFault>(IdentityFault::InvalidDid(m@)));
            }
            return Err(IdentityError::InvalidDid(m));
        }
        match hex_decode(body) {
            Err(e) => Err(IdentityError::Hex(e)),
            Ok(_) => Ok(Did(String::from_str(s))),
        }
    }
}

/// An Ed25519 public key: 32 bytes that decompress to a curve point.
#[derive(Clone, Copy, Debug, PartialEq, Eq)]
pub struct VerifyingKey {
    bytes: [u8; 32],
}

impl View for VerifyingKey {
    type V = Seq<u8>;

    closed spec fn view(&self) -> Seq<u8> {
        self.bytes@
    }
}

impl VerifyingKey {
    #[verifier::type_invariant]
    spec fn decodes(self) -> bool {
        ed25519_key_decodes(self.bytes@)
    }

    /// The key's 32 bytes.
    pub fn as_bytes(&self) -> (b: &[u8; 32])
        ensures
            b@ == self@,
    {
        &self.bytes
    }

    /// The key's 32 bytes.
    pub fn to_bytes(&self) -> (b: [u8; 32])
        ensures
            b@ == self@,
    {
        self.bytes
    }

    /// Whether `sig` is a valid Ed25519 signature of `payload` under this
    /// key.
    pub fn verify(&self, payload: &[u8], sig: &Signature) -> (ok: bool)
        ensures
            ok == ed25519_verify(self@, payload@, sig@),
    {
        proof { use_type_invariant(self); }
        verify_signature(&self.bytes, payload, &sig.bytes)
    }
}

/// An Ed25519 signature.
#[derive(Clone, Copy, Debug, PartialEq, Eq)]
pub struct Signature {
    bytes: [u8; 64],
}

impl View for Signature {
    type V = Seq<u8>;

    closed spec fn view(&self) -> Seq<u8> {
        self.bytes@
    }
}

impl Signature {
    /// The signature's 64 bytes.
    pub fn to_bytes(&self) -> (b: [u8; 64])
        ensures
            b@ == self@,
    {
        self.bytes
    }
}

/// Full device identity (signing and verifying key pair, and the DID).
pub struct DeviceIdentity {
    secret: [u8; 32],
    public: [u8; 32],
    did: Did,
}

impl View for DeviceIdentity {
    /// The secret key.
    type V = Seq<u8>;

    closed spec fn view(&self) -> Seq<u8> {
        self.secret@
    }
}

impl DeviceIdentity {
    #[verifier::type_invariant]
    spec fn consistent(self) -> bool {
        &&& self.public@ == ed25519_public_key(self.secret@)
        &&& ed25519_key_decodes(self.public@)
        &&& self.did@ == did_text(self.public@)
        &&& did_parsed(self.did@) == Ok::<Seq<char>, IdentityFault>(self.did@)
    }

    fn from_secret(secret: [u8; 32]) -> (id: DeviceIdentity)
        ensures
            id@ == secret@,
    {
        let public = derive_public_key(&secret);
        let did = did_from_key_bytes(&public);
        DeviceIdentity { secret, public, did }
    }

    /// A fresh identity from the operating system's random source.
    pub fn generate() -> (id: DeviceIdentity)
        ensures
            id@.len() == 32,
    {
        let secret = generate_secret();
        Self::from_secret(secret)
    }

    /// The identity whose secret key is `bytes`; refuses any length but 32.
    pub fn from_secret_bytes(bytes: &[u8]) -> (r: Result<DeviceIdentity, IdentityError>)
        ensures
            r is Ok <==> bytes@.len() == 32,
            r matches Ok(id) ==> id@ == bytes@,
            r matches Err(e) ==> e@ == IdentityFault::InvalidSecretKey(bytes@.len() as usize),
    {
        if bytes.len() != 32 {
            return Err(IdentityError::InvalidSecretKey(bytes.len()));
        }
        let mut arr = [0u8; 32];
        for i in 0..32
            invariant
                bytes@.len() == 32,
                forall|k: int| 0 <= k < i ==> arr@[k] == bytes@[k],
        {
            arr[i] = bytes[i];
        }
        assert(arr@ =~= bytes@);
        Ok(Self::from_secret(arr))
    }

    /// The identity's DID.
    pub fn did(&self) -> (d: &Did)
        ensures
            d@ == did_text(ed25519_public_key(self@)),
            did_parsed(d@) == Ok::<Seq<char>, IdentityFault>(d@),
    {
        proof { use_type_invariant(self); }
        &self.did
    }

    /// The public key.
    pub fn public_key(&self) -> (k: VerifyingKey)
        ensures
            k@ == ed25519_public_key(self@),
    {
        proof { use_type_invariant(self); }
        VerifyingKey { bytes: self.public }
    }

    /// Lower-case hex of the public key.
    pub fn public_key_hex(&self) -> (h: String)
        ensures
            h@ == hex_text(ed25519_public_key(self@)),
    {
        proof { use_type_invariant(self); }
        hex_encode(&self.public)
    }

    /// The secret key.
    pub fn secret_bytes(&self) -> (b: [u8; 32])
        ensures
            b@ == self@,
    {
        self.secret
    }

    /// Ed25519 signature of `payload`.
    pub fn sign(&self, payload: &[u8]) -> (sig: Signature)
        ensures
            sig@ == ed25519_sign(self@, payload@),
            ed25519_verify(ed25519_public_key(self@), payload@, sig@),
    {
        Signature { bytes: sign_message(&self.secret, payload) }
    }

    /// Lower-case hex of the signature of `payload`. Verifying it against
    /// this identity's hex public key succeeds.
    pub fn sign_hex(&self, payload: &[u8]) -> (h: String)
        ensures
            h@ == hex_text(ed25519_sign(self@, payload@)),
            verify_hex_outcome(hex_text(ed25519_public_key(self@)), payload@, h@) == Ok::<bool, IdentityFault>(true),
    {
        proof { use_type_invariant(self); }
        let sig = self.sign(payload);
        let bytes = sig.to_bytes();
        proof {
            crate::hex_codec::lemma_hex_round_trip(ed25519_public_key(self@));
            crate::hex_codec::lemma_hex_round_trip(bytes@);
        }
        hex_encode(&bytes)
    }
}

/// Decodes a hex-encoded public key, as `DeviceRecord::verifying_key` and
/// `verify_hex` both do.
fn key_from_hex(h: &str) -> (r: Result<VerifyingKey, IdentityError>)
    ensures
        match r {
            Ok(k) => public_key_from_hex(h@) == Ok::<Seq<u8>, IdentityFault>(k@),
            Err(e) => public_key_from_hex(h@) == Err::<Seq<u8>, IdentityFault>(e@),
        },
{
    let bytes = match hex_decode(h) {
        Ok(b) => b,
        Err(e) => {
            return Err(IdentityError::Hex(e));
        },
    };
    if bytes.len() != 32 {
        return Err(IdentityError::InvalidPublicKey(bytes.len()));
    }
    let mut arr = [0u8; 32];
    for i in 0..32
        invariant
            bytes@.len() == 32,
            forall|k: int| 0 <= k < i ==> arr@[k] == bytes@[k],
    {
        arr[i] = bytes[i];
    }
    assert(arr@ =~= bytes@);
    match check_public_key(&arr) {
        Ok(()) => Ok(VerifyingKey { bytes: arr }),
        Err(m) => Err(IdentityError::InvalidSignature(m)),
    }
}

/// Whether the hex-encoded public key `pk_hex` decodes to a key whose DID
/// is `did`.
pub(crate) fn key_is_did(did: &Did, pk_hex: &str) -> (r: bool)
    ensures
        r == (public_key_from_hex(pk_hex@) matches Ok(pk) && did_text(pk) == did@),
{
    match key_from_hex(pk_hex) {
        Ok(vk) => {
            let d = Did::from_public_key(&vk);
            d.0 == did.0
        },
        Err(_) => false,
    }
}

/// Public-facing record stored in the registry.
#[derive(Clone, Debug, PartialEq, Eq)]
pub struct DeviceRecord {
    pub did: Did,
    pub public_key_hex: String,
    pub registered_at: Timestamp,
    pub metadata: JsonValue,
}

impl DeviceRecord {
    /// The record of `identity`, registered now, with `metadata`.
    pub fn new(identity: &DeviceIdentity, metadata: JsonValue) -> (r: DeviceRecord)
        ensures
            r.did@ == did_text(ed25519_public_key(identity@)),
            r.public_key_hex@ == hex_text(ed25519_public_key(identity@)),
            r.metadata == metadata,
            public_key_from_hex(r.public_key_hex@) == Ok::<Seq<u8>, IdentityFault>(ed25519_public_key(identity@)),
    {
        proof {
            use_type_invariant(identity);
            crate::hex_codec::lemma_hex_round_trip(ed25519_public_key(identity@));
        }
        DeviceRecord {
            did: Did(identity.did().0.clone()),
            public_key_hex: identity.public_key_hex(),
            registered_at: Timestamp::now(),
            metadata,
        }
    }

    /// The public key that the record holds in hex.
    pub fn verifying_key(&self) -> (r: Result<VerifyingKey, IdentityError>)
        ensures
            match r {
                Ok(k) => public_key_from_hex(self.public_key_hex@) == Ok::<Seq<u8>, IdentityFault>(k@),
                Err(e) => public_key_from_hex(self.public_key_hex@) == Err::<Seq<u8>, IdentityFault>(e@),
            },
    {
        key_from_hex(self.public_key_hex.as_str())
    }
}

/// Verify an Ed25519 signature against a hex-encoded public key and a
/// hex-encoded signature.
pub fn verify_hex(public_key_hex: &str, payload: &[u8], signature_hex: &str) -> (r: Result<bool, IdentityError>)
    ensures
        match r {
            Ok(b) => verify_hex_outcome(public_key_hex@, payload@, signature_hex@) == Ok::<bool, IdentityFault>(b),
            Err(e) => verify_hex_outcome(public_key_hex@, payload@, signature_hex@) == Err::<bool, IdentityFault>(e@),
        },
{
    let vk = match key_from_hex(public_key_hex) {
        Ok(k) => k,
        Err(e) => {
            return Err(e);
        },
    };
    let sig_bytes = match hex_decode(signature_hex) {
        Ok(b) => b,
        Err(e) => {
            return Err(IdentityError::Hex(e));
        },
    };
    if sig_bytes.len() != 64 {
        let mut m = String::from_str("expected 64-byte signature, got ");
        let d = decimal(sig_bytes.len() as u64);
        m.append(d.as_str());
        return Err(IdentityError::InvalidSignature(m));
    }
    let mut arr = [0u8; 64];
    for i in 0..64
        invariant
            sig_bytes@.len() == 64,
            forall|k: int| 0 <= k < i ==> arr@[k] == sig_bytes@[k],
    {
        arr[i] = sig_bytes[i];
    }
    assert(arr@ =~= sig_bytes@);
    proof { use_type_invariant(&vk); }
    Ok(verify_signature(&vk.bytes, payload, &arr))
}

} // verus!
