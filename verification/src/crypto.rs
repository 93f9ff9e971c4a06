//! SHA-256 and Ed25519, through the `sha2`, `ed25519-dalek` and `rand_core`
//! crates.

use vstd::prelude::*;
use sha2::Digest;
use ed25519_dalek::Signer;
use ed25519_dalek::Verifier;

verus! {

/// SHA-256 digest of `data`.
pub uninterp spec fn sha256(data: Seq<u8>) -> Seq<u8>;

/// Ed25519 public key (compressed point) of the 32-byte secret key `secret`.
pub uninterp spec fn ed25519_public_key(secret: Seq<u8>) -> Seq<u8>;

/// Ed25519 signature of `msg` under the secret key `secret`.
pub uninterp spec fn ed25519_sign(secret: Seq<u8>, msg: Seq<u8>) -> Seq<u8>;

/// The 32 bytes `public` are the compressed form of a curve point.
pub uninterp spec fn ed25519_key_decodes(public: Seq<u8>) -> bool;

/// `sig` is a valid Ed25519 signature of `msg` under the public key `public`.
pub uninterp spec fn ed25519_verify(public: Seq<u8>, msg: Seq<u8>, sig: Seq<u8>) -> bool;

/// The text with which the `ed25519-dalek` crate reports a public key that
/// is not the compressed form of a curve point.
pub open spec fn point_decompression_text() -> Seq<char> {
    "signature error: Cannot decompress Edwards point"@
}

/// `sha2::Sha256::digest`: the result is the SHA-256 digest of `data`
/// (32 bytes by its type).
#[verifier::external_body]
pub(crate) fn sha256_digest(data: &[u8]) -> (d: [u8; 32])
    ensures
        d@ == sha256(data@),
{
    sha2::Sha256::digest(data).into()
}

/// `SigningKey::from_bytes(secret).verifying_key().to_bytes()`: the public
/// key of `secret`. The contract also claims that these bytes decompress
/// again (`VerifyingKey::from_bytes` accepts the compression of the point
/// that the signing key holds).
#[verifier::external_body]
pub(crate) fn derive_public_key(secret: &[u8; 32]) -> (pk: [u8; 32])
    ensures
        pk@ == ed25519_public_key(secret@),
        ed25519_key_decodes(pk@),
{
    ed25519_dalek::SigningKey::from_bytes(secret).verifying_key().to_bytes()
}

/// `Signer::sign` of `SigningKey::from_bytes(secret)`: the signature of
/// `msg`. The contract also claims Ed25519's correctness: `Verifier::verify`
/// under the key's own public key accepts the signature it made.
#[verifier::external_body]
pub(crate) fn sign_message(secret: &[u8; 32], msg: &[u8]) -> (sig: [u8; 64])
    ensures
        sig@ == ed25519_sign(secret@, msg@),
        ed25519_verify(ed25519_public_key(secret@), msg@, sig@),
{
    ed25519_dalek::SigningKey::from_bytes(secret).sign(msg).to_bytes()
}

/// `VerifyingKey::from_bytes(pk)`: succeeds exactly when `pk` decompresses.
/// Its only failure is point decompression, which `to_string` renders as the
/// text of `point_decompression_text`.
#[verifier::external_body]
pub(crate) fn check_public_key(pk: &[u8; 32]) -> (r: Result<(), String>)
    ensures
        r is Ok <==> ed25519_key_decodes(pk@),
        r matches Err(m) ==> m@ == point_decompression_text(),
{
    match ed25519_dalek::VerifyingKey::from_bytes(pk) {
        Ok(_) => Ok(()),
        Err(e) => Err(e.to_string()),
    }
}

/// `Verifier::verify` of `VerifyingKey::from_bytes(pk)` on
/// `Signature::from_bytes(sig)`: whether the signature is valid.
#[verifier::external_body]
pub(crate) fn verify_signature(pk: &[u8; 32], msg: &[u8], sig: &[u8; 64]) -> (ok: bool)
    requires
        ed25519_key_decodes(pk@),
    ensures
        ok == ed25519_verify(pk@, msg@, sig@),
{
    match ed25519_dalek::VerifyingKey::from_bytes(pk) {
        Ok(vk) => vk.verify(msg, &ed25519_dalek::Signature::from_bytes(sig)).is_ok(),
        Err(_) => false,
    }
}

/// `SigningKey::generate(&mut OsRng).to_bytes()`: 32 bytes from the
/// operating system's random source. Nothing is stated of them.
#[verifier::external_body]
pub(crate) fn generate_secret() -> (secret: [u8; 32]) {
    ed25519_dalek::SigningKey::generate(&mut rand_core::OsRng).to_bytes()
}

} // verus!
