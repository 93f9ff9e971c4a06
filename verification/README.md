# sentinel_core

Device identity and signed attestation claims for the Sentinels trust
engine, written in Verus.

- `src/identity.rs`: Ed25519 device identities, their DIDs
  (`did:sentinel:<hex of SHA-256 of the public key>`), DID parsing, device
  records and hex signature verification.
- `src/attestation.rs`: claims (kind, subject, time, nonce, JSON payload),
  signed over the canonical JSON of their body; a claim verifies only under
  the key whose DID is its subject.
- `src/json.rs`: JSON values and their canonical text (object members in
  increasing key order, no whitespace), with the laws that the text does not
  depend on member order and lists every member once, in order. Objects
  keep their members sorted by key, so equal members mean equal objects.
- `src/canon_inverse.rs`: for values without floating-point numbers, the
  canonical text determines the value up to the order of object members
  (and exactly, for objects kept in key order as `JsonMap` keeps them). For
  claim bodies, equal canonical bytes give equal kind, subject, nonce and
  payload, and issue times with the same RFC 3339 text.
- `src/hex_codec.rs`, `src/crypto.rs`, `src/time.rs`, `src/text.rs`: the
  calls into `hex`, `sha2`, `ed25519-dalek`, `rand_core`, `chrono` and
  `serde_json`, each with the contract it is trusted to meet, and the text
  helpers built on them.
- `app/`: serde forms, `Display` and error messages for the library's
  types, and conversions to and from `serde_json::Value` and
  `chrono::DateTime<Utc>`.
