//! Device identity, signed attestation claims and canonical JSON for the
//! Sentinels trust engine.

pub mod text;
pub mod time;
pub mod attestation;
pub mod crypto;
pub mod hex_codec;
pub mod identity;
pub mod json;
pub mod canon_inverse;
