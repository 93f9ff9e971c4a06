//! Attestation claims: structured statements about a device, signed with
//! the device's Ed25519 identity key over their canonical JSON form.

use vstd::prelude::*;
use vstd::utf8::*;
use crate::crypto::{ed25519_key_decodes, ed25519_public_key, ed25519_sign, ed25519_verify, sha256, sha256_digest};
use crate::hex_codec::{hex_decoded, hex_encode, hex_text};
use crate::identity::{
    did_text, key_is_did, public_key_from_hex, verify_hex, verify_hex_outcome, DeviceIdentity, Did, IdentityError,
    IdentityFault,
};
use crate::json::{
    canon, canonicalize, entry_keys, entry_texts, is_next, json_equiv, key_order, Json, JsonValue,
};
use crate::canon_inverse::{law_canonical_text_determines_value, plain_json};
use crate::json::sorted_json;
use crate::text::{join, json_quote, json_quoted, key_lt};
use crate::time::{rfc3339_text, Timestamp};

verus! {

/// Why an attestation operation failed.
#[derive(Debug)]
pub enum AttestationError {
    /// The claim's key or signature could not be used.
    Identity(IdentityError),
    /// The signature does not match the claim.
    InvalidSignature,
}

/// `AttestationError` with its messages as character sequences.
pub enum AttestationFault {
    Identity(IdentityFault),
    InvalidSignature,
}

impl View for AttestationError {
    type V = AttestationFault;

    open spec fn view(&self) -> AttestationFault {
        match self {
            AttestationError::Identity(e) => AttestationFault::Identity(e@),
            AttestationError::InvalidSignature => AttestationFault::InvalidSignature,
        }
    }
}

/// What a claim is about.
#[derive(Clone, Copy, Debug, PartialEq, Eq, Structural)]
pub enum ClaimKind {
    FirmwareHash,
    MeasuredBoot,
    SoftwareBom,
    Custom,
}

/// The name of a kind in claims (snake case).
pub open spec fn kind_name(k: ClaimKind) -> Seq<char> {
    match k {
        ClaimKind::FirmwareHash => "firmware_hash"@,
        ClaimKind::MeasuredBoot => "measured_boot"@,
        ClaimKind::SoftwareBom => "software_bom"@,
        ClaimKind::Custom => "custom"@,
    }
}

impl ClaimKind {
    /// The name of this kind in claims.
    pub fn name(&self) -> (s: &'static str)
        ensures
            s@ == kind_name(*self),
    {
        match self {
            ClaimKind::FirmwareHash => "firmware_hash",
            ClaimKind::MeasuredBoot => "measured_boot",
            ClaimKind::SoftwareBom => "software_bom",
            ClaimKind::Custom => "custom",
        }
    }
}

/// The statement that a claim signs.
#[derive(Clone, Debug, PartialEq, Eq)]
pub struct ClaimBody {
    pub kind: ClaimKind,
    pub subject: Did,
    pub issued_at: Timestamp,
    pub nonce: String,
    pub payload: JsonValue,
}

/// The JSON object of a claim body, its members in increasing order of key
/// as the serialised map holds them.
pub open spec fn body_json(b: ClaimBody) -> Json {
    Json::Obj(
        seq![
            ("issued_at"@, Json::Str(rfc3339_text(b.issued_at@.0, b.issued_at@.1))),
            ("kind"@, Json::Str(kind_name(b.kind))),
            ("nonce"@, Json::Str(b.nonce@)),
            ("payload"@, b.payload.model()),
            ("subject"@, Json::Str(b.subject@)),
        ],
    )
}

/// The signing pre-image of a claim body: its canonical JSON in UTF-8.
pub open spec fn canonical_body(b: ClaimBody) -> Seq<u8> {
    encode_utf8(canon(body_json(b)))
}

/// Two ASCII keys that differ in their first character are ordered by it.
proof fn lemma_first_char_order(a: Seq<char>, b: Seq<char>)
    requires
        is_ascii_chars(a),
        is_ascii_chars(b),
        a.len() > 0,
        b.len() > 0,
        (a[0] as u32) < (b[0] as u32),
    ensures
        key_lt(a, b),
{
    is_ascii_chars_encode_utf8(a);
    is_ascii_chars_encode_utf8(b);
    assert(encode_utf8(a)[0] == a[0] as u8);
    assert(encode_utf8(b)[0] == b[0] as u8);
}

/// Member names of a claim body, in increasing order.
pub open spec fn body_keys() -> Seq<Seq<char>> {
    seq!["issued_at"@, "kind"@, "nonce"@, "payload"@, "subject"@]
}

proof fn lemma_body_keys_sorted()
    ensures
        body_keys().len() == 5,
        forall|i: int, j: int| 0 <= i < j < 5 ==> key_lt(#[trigger] body_keys()[i], #[trigger] body_keys()[j]),
{
    reveal_strlit("issued_at");
    reveal_strlit("kind");
    reveal_strlit("nonce");
    reveal_strlit("payload");
    reveal_strlit("subject");
    let ks = body_keys();
    assert forall|i: int| 0 <= i < 5 implies is_ascii_chars(#[trigger] ks[i]) && ks[i].len() > 0 by {}
    assert forall|i: int, j: int| 0 <= i < j < 5 implies key_lt(#[trigger] ks[i], #[trigger] ks[j]) by {
        lemma_first_char_order(ks[i], ks[j]);
    }
}

/// `"key":value`
pub open spec fn member(key: Seq<char>, value: Seq<char>) -> Seq<char> {
    json_quoted(key) + seq![':'] + value
}

/// The canonical text of a claim body, member by member.
proof fn lemma_body_canon(b: ClaimBody)
    ensures
        canon(body_json(b)) == seq!['{'] + member("issued_at"@, json_quoted(rfc3339_text(b.issued_at@.0, b.issued_at@.1)))
            + seq![','] + member("kind"@, json_quoted(kind_name(b.kind)))
            + seq![','] + member("nonce"@, json_quoted(b.nonce@))
            + seq![','] + member("payload"@, canon(b.payload.model()))
            + seq![','] + member("subject"@, json_quoted(b.subject@)) + seq!['}'],
{
    let es = match body_json(b) {
        Json::Obj(es) => es,
        _ => Seq::empty(),
    };
    let keys = entry_keys(es);
    assert(keys =~= body_keys());
    lemma_body_keys_sorted();
    crate::json::lemma_sorted_key_order(keys, 0);
    let ord = key_order(keys, None, 5);
    assert(ord =~= seq![0int, 1, 2, 3, 4]);
    crate::json::lemma_entry_texts(es, ord, 0);
    let parts = entry_texts(es, ord, 0);
    assert(parts.len() == 5);
    assert(join(parts) == parts[0] + seq![','] + parts[1] + seq![','] + parts[2] + seq![','] + parts[3] + seq![','] + parts[4]) by {
        let p4 = parts.drop_last();
        let p3 = p4.drop_last();
        let p2 = p3.drop_last();
        let p1 = p2.drop_last();
        assert(p1 =~= seq![parts[0]]);
        assert(join(p1) == parts[0]);
        assert(join(p2) == join(p1) + seq![','] + parts[1]);
        assert(join(p3) == join(p2) + seq![','] + parts[2]);
        assert(join(p4) == join(p3) + seq![','] + parts[3]);
        assert(join(parts) == join(p4) + seq![','] + parts[4]);
    }
    assert(canon(body_json(b)) == seq!['{'] + join(parts) + seq!['}']);
}

/// Appends `,"key":value` (without the comma when `first`).
fn push_member(s: &mut String, first: bool, key: &str, value: &str)
    ensures
        final(s)@ == old(s)@ + (if first { seq![] } else { seq![','] }) + json_quoted(key@) + seq![':'] + value@,
{
    proof {
        reveal_strlit(",");
        reveal_strlit(":");
        assert(","@ =~= seq![',']);
        assert(":"@ =~= seq![':']);
    }
    let ghost s0 = s@;
    if !first {
        s.append(",");
    }
    let q = json_quote(key);
    s.append(q.as_str());
    s.append(":");
    s.append(value);
    assert(s@ =~= s0 + (if first { seq![] } else { seq![','] }) + json_quoted(key@) + seq![':'] + value@);
}

impl ClaimBody {
    /// Canonical JSON (sorted keys, no whitespace) in UTF-8: the signing
    /// pre-image. Serialising a body cannot fail, so this is always `Ok`.
    pub fn canonical_bytes(&self) -> (r: Result<Vec<u8>, AttestationError>)
        ensures
            r matches Ok(b) && b@ == canonical_body(*self),
    {
        let t = self.canonical_text();
        Ok(t.as_str().as_bytes_vec())
    }

    fn canonical_text(&self) -> (t: String)
        ensures
            t@ == canon(body_json(*self)),
    {
        let ts = self.issued_at.to_rfc3339();
        let v0 = json_quote(ts.as_str());
        let v1 = json_quote(self.kind.name());
        let v2 = json_quote(self.nonce.as_str());
        let v3 = canonicalize(&self.payload);
        let v4 = json_quote(self.subject.as_str());
        let mut s = String::from_str("{");
        push_member(&mut s, true, "issued_at", v0.as_str());
        push_member(&mut s, false, "kind", v1.as_str());
        push_member(&mut s, false, "nonce", v2.as_str());
        push_member(&mut s, false, "payload", v3.as_str());
        push_member(&mut s, false, "subject", v4.as_str());
        s.append("}");
        proof {
            reveal_strlit("{");
            reveal_strlit("}");
            assert("{"@ =~= seq!['{']);
            assert("}"@ =~= seq!['}']);
            lemma_body_canon(*self);
            assert(s@ =~= canon(body_json(*self)));
        }
        s
    }

    /// Lower-case hex of the SHA-256 digest of the canonical bytes.
    pub fn digest_hex(&self) -> (r: Result<String, AttestationError>)
        ensures
            r matches Ok(h) && h@ == hex_text(sha256(canonical_body(*self))) && h@.len() == 64,
    {
        let t = self.canonical_text();
        let bytes = t.as_str().as_bytes_vec();
        let d = sha256_digest(bytes.as_slice());
        assert(d@.len() == 32);
        Ok(hex_encode(&d))
    }
}

/// The signing pre-image of a claim body does not depend on the order in
/// which the members of objects in the payload were inserted, at any depth:
/// two bodies that agree in everything but that order have the same
/// canonical bytes (and so the same digest, and the same signature under
/// one key).
pub proof fn law_canonical_body_order_independent(b1: ClaimBody, b2: ClaimBody)
    requires
        b1.kind == b2.kind,
        b1.subject@ == b2.subject@,
        b1.issued_at@ == b2.issued_at@,
        b1.nonce@ == b2.nonce@,
        json_equiv(b1.payload.model(), b2.payload.model()),
    ensures
        canonical_body(b1) == canonical_body(b2),
{
    crate::json::law_canonical_equivalent(b1.payload.model(), b2.payload.model());
    lemma_body_canon(b1);
    lemma_body_canon(b2);
}

proof fn lemma_kind_name_injective(k1: ClaimKind, k2: ClaimKind)
    requires
        kind_name(k1) == kind_name(k2),
    ensures
        k1 == k2,
{
    reveal_strlit("firmware_hash");
    reveal_strlit("measured_boot");
    reveal_strlit("software_bom");
    reveal_strlit("custom");
    assert(kind_name(ClaimKind::FirmwareHash)[0] == 'f');
    assert(kind_name(ClaimKind::MeasuredBoot)[0] == 'm');
    assert(kind_name(ClaimKind::SoftwareBom)[0] == 's');
    assert(kind_name(ClaimKind::Custom)[0] == 'c');
    assert(kind_name(k1)[0] == kind_name(k2)[0]);
    match k1 {
        ClaimKind::FirmwareHash => {},
        ClaimKind::MeasuredBoot => {},
        ClaimKind::SoftwareBom => {},
        ClaimKind::Custom => {},
    }
}

proof fn lemma_body_plain(b: ClaimBody)
    requires
        plain_json(b.payload.model()),
    ensures
        plain_json(body_json(b)),
{
    lemma_body_keys_sorted();
    let es = match body_json(b) {
        Json::Obj(es) => es,
        _ => Seq::empty(),
    };
    assert(body_json(b) == Json::Obj(es));
    assert(entry_keys(es) =~= body_keys());
    crate::json::lemma_sorted_keys_distinct(body_keys());
    assert forall|i: int| 0 <= i < es.len() implies plain_json(#[trigger] es[i].1) by {
        if i != 3 {
            assert(es[i].1 is Str);
        }
    }
}

proof fn lemma_equiv_member(es: Seq<(Seq<char>, Json)>, fs: Seq<(Seq<char>, Json)>, k: int)
    requires
        json_equiv(Json::Obj(es), Json::Obj(fs)),
        0 <= k < es.len(),
        k < fs.len(),
        es[k].0 == fs[k].0,
    ensures
        json_equiv(es[k].1, fs[k].1),
{
    let j = choose|j: int| 0 <= j < fs.len() && #[trigger] fs[j].0 == es[k].0 && json_equiv(es[k].1, fs[j].1);
    assert(entry_keys(fs)[j] == entry_keys(fs)[k]);
}

proof fn lemma_body_fields(b1: ClaimBody, b2: ClaimBody)
    requires
        json_equiv(body_json(b1), body_json(b2)),
    ensures
        kind_name(b1.kind) == kind_name(b2.kind),
        b1.subject@ == b2.subject@,
        b1.nonce@ == b2.nonce@,
        rfc3339_text(b1.issued_at@.0, b1.issued_at@.1) == rfc3339_text(b2.issued_at@.0, b2.issued_at@.1),
        json_equiv(b1.payload.model(), b2.payload.model()),
{
    let es = match body_json(b1) {
        Json::Obj(es) => es,
        _ => Seq::empty(),
    };
    let fs = match body_json(b2) {
        Json::Obj(fs) => fs,
        _ => Seq::empty(),
    };
    assert(body_json(b1) == Json::Obj(es));
    assert(body_json(b2) == Json::Obj(fs));
    lemma_equiv_member(es, fs, 0);
    lemma_equiv_member(es, fs, 1);
    lemma_equiv_member(es, fs, 2);
    lemma_equiv_member(es, fs, 3);
    lemma_equiv_member(es, fs, 4);
}

/// The signing pre-image determines the body: two bodies whose payloads hold
/// no floating-point numbers and whose canonical bytes agree have the same
/// kind, subject, nonce and payload, and issue times with the same RFC 3339
/// text. (So such bodies that differ in any of these never share a signing
/// pre-image.) The payloads' objects keep their keys in increasing order, as
/// every `JsonMap` does.
pub proof fn law_canonical_body_determines_body(b1: ClaimBody, b2: ClaimBody)
    requires
        plain_json(b1.payload.model()),
        plain_json(b2.payload.model()),
        sorted_json(b1.payload.model()),
        sorted_json(b2.payload.model()),
        canonical_body(b1) == canonical_body(b2),
    ensures
        b1.kind == b2.kind,
        b1.subject@ == b2.subject@,
        b1.nonce@ == b2.nonce@,
        rfc3339_text(b1.issued_at@.0, b1.issued_at@.1) == rfc3339_text(b2.issued_at@.0, b2.issued_at@.1),
        b1.payload.model() == b2.payload.model(),
{
    crate::text::lemma_encode_utf8_injective(canon(body_json(b1)), canon(body_json(b2)));
    lemma_body_plain(b1);
    lemma_body_plain(b2);
    law_canonical_text_determines_value(body_json(b1), body_json(b2));
    lemma_body_fields(b1, b2);
    lemma_kind_name_injective(b1.kind, b2.kind);
    crate::canon_inverse::lemma_equiv_sorted_equal(b1.payload.model(), b2.payload.model());
}

/// A claim body with its signature and the signer's public key, both in hex.
#[derive(Clone, Debug, PartialEq, Eq)]
pub struct Claim {
    pub body: ClaimBody,
    pub signature_hex: String,
    pub public_key_hex: String,
}

/// What verifying a claim gives: `Ok` when the signature in hex is valid for
/// the canonical bytes of the body under the public key in hex, and that key
/// is the one the subject's DID is made from.
pub open spec fn claim_outcome(c: Claim) -> Result<(), AttestationFault> {
    match verify_hex_outcome(c.public_key_hex@, canonical_body(c.body), c.signature_hex@) {
        Err(f) => Err(AttestationFault::Identity(f)),
        Ok(true) => if key_names_subject(c) {
            Ok(())
        } else {
            Err(AttestationFault::InvalidSignature)
        },
        Ok(false) => Err(AttestationFault::InvalidSignature),
    }
}

/// The claim's public key is the registered key of the device the claim is
/// about: the subject is the DID of that key.
pub open spec fn key_names_subject(c: Claim) -> bool {
    public_key_from_hex(c.public_key_hex@) matches Ok(pk) && did_text(pk) == c.body.subject@
}

/// A claim verifies exactly when its key text decodes to a 32-byte Ed25519
/// key whose DID is the claim's subject, its signature text decodes to
/// exactly 64 bytes, and those bytes are a valid signature of the body's
/// canonical bytes under that key. Whenever decoding the key or the
/// signature fails, verifying fails with that identity error.
pub proof fn law_claim_verifies_exactly(c: Claim)
    ensures
        (claim_outcome(c) is Ok) <==> {
            &&& hex_decoded(encode_utf8(c.public_key_hex@)) matches Ok(k)
            &&& k.len() == 32
            &&& ed25519_key_decodes(k)
            &&& did_text(k) == c.body.subject@
            &&& hex_decoded(encode_utf8(c.signature_hex@)) matches Ok(sig)
            &&& sig.len() == 64
            &&& ed25519_verify(k, canonical_body(c.body), sig)
        },
        verify_hex_outcome(c.public_key_hex@, canonical_body(c.body), c.signature_hex@) matches Err(f)
            ==> claim_outcome(c) == Err::<(), AttestationFault>(AttestationFault::Identity(f)),
{
    crate::identity::law_verify_hex_ok_exactly(c.public_key_hex@, canonical_body(c.body), c.signature_hex@);
}

impl Claim {
    /// Signs `body` with `identity`. The claim that comes out verifies
    /// exactly when its subject is the identity's own DID; a claim about
    /// another device is refused as an invalid signature.
    pub fn sign(identity: &DeviceIdentity, body: ClaimBody) -> (r: Result<Claim, AttestationError>)
        ensures
            r matches Ok(c) && {
                &&& c.body == body
                &&& c.signature_hex@ == hex_text(ed25519_sign(identity@, canonical_body(body)))
                &&& c.public_key_hex@ == hex_text(ed25519_public_key(identity@))
                &&& claim_outcome(c) == if body.subject@ == did_text(ed25519_public_key(identity@)) {
                    Ok::<(), AttestationFault>(())
                } else {
                    Err::<(), AttestationFault>(AttestationFault::InvalidSignature)
                }
            },
    {
        proof { crate::hex_codec::lemma_hex_round_trip(ed25519_public_key(identity@)); }
        let bytes = match body.canonical_bytes() {
            Ok(b) => b,
            Err(e) => {
                return Err(e);
            },
        };
        let signature_hex = identity.sign_hex(bytes.as_slice());
        Ok(Claim { body, signature_hex, public_key_hex: identity.public_key_hex() })
    }

    /// Checks the signature against the public key over the canonical bytes
    /// of the body, and that the key is the subject's: its DID is the
    /// subject.
    pub fn verify(&self) -> (r: Result<(), AttestationError>)
        ensures
            match r {
                Ok(()) => claim_outcome(*self) == Ok::<(), AttestationFault>(()),
                Err(e) => claim_outcome(*self) == Err::<(), AttestationFault>(e@),
            },
    {
        let bytes = match self.body.canonical_bytes() {
            Ok(b) => b,
            Err(e) => {
                return Err(e);
            },
        };
        match verify_hex(self.public_key_hex.as_str(), bytes.as_slice(), self.signature_hex.as_str()) {
            Err(e) => Err(AttestationError::Identity(e)),
            Ok(true) => if key_is_did(&self.body.subject, self.public_key_hex.as_str()) {
                Ok(())
            } else {
                Err(AttestationError::InvalidSignature)
            },
            Ok(false) => Err(AttestationError::InvalidSignature),
        }
    }
}

} // verus!
