use sentinel_core::hex_codec::HexError;
use sentinel_core::identity::{verify_hex, DeviceIdentity, DeviceRecord, Did, IdentityError};
use sentinel_core::json::{JsonMap, JsonValue};
use sha2::Digest;

fn unhex(s: &str) -> Vec<u8> {
    hex::decode(s).unwrap()
}

// RFC 8032, section 7.1, test 1.
const RFC_SECRET: &str = "9d61b19deffd5a60ba844af492ec2cc44449c5697b326919703bac031cae7f60";
const RFC_PUBLIC: &str = "d75a980182b10ab7d54bfed3c964073a0ee172f3daa62325af021a68f707511a";
const RFC_SIGNATURE: &str = "e5564300c360ac729086e2cc806e828a84877f1eb8e5d974d873e065224901555fb8821590a33bacc61e39701cf9b46bd25bf5f0595bbe24655141438e7a100b";

#[test]
fn generates_unique_identities() {
    let a = DeviceIdentity::generate();
    let b = DeviceIdentity::generate();
    assert_ne!(a.did(), b.did());
    assert_ne!(a.public_key_hex(), b.public_key_hex());
}

#[test]
fn did_is_deterministic_from_public_key() {
    let id = DeviceIdentity::generate();
    let recomputed = Did::from_public_key(&id.public_key());
    assert_eq!(id.did(), &recomputed);
    assert!(id.did().as_str().starts_with(Did::PREFIX));
    assert_eq!(id.did().as_str().len(), Did::PREFIX.len() + 64);
}

#[test]
fn sign_and_verify_roundtrip() {
    let id = DeviceIdentity::generate();
    let payload = b"telemetry-event-42";
    let sig = id.sign_hex(payload);
    let ok = verify_hex(&id.public_key_hex(), payload, &sig).unwrap();
    assert!(ok);
}

#[test]
fn verify_fails_on_tampered_payload() {
    let id = DeviceIdentity::generate();
    let sig = id.sign_hex(b"original");
    let ok = verify_hex(&id.public_key_hex(), b"tampered", &sig).unwrap();
    assert!(!ok);
}

#[test]
fn restores_from_secret_bytes() {
    let id = DeviceIdentity::generate();
    let bytes = id.secret_bytes();
    let restored = DeviceIdentity::from_secret_bytes(&bytes).unwrap();
    assert_eq!(id.did(), restored.did());
    assert_eq!(id.public_key_hex(), restored.public_key_hex());
}

#[test]
fn did_parse_round_trip() {
    let id = DeviceIdentity::generate();
    let s = id.did().to_string();
    let parsed = Did::parse(&s).unwrap();
    assert_eq!(parsed, *id.did());
}

#[test]
fn did_parse_rejects_bad_input() {
    assert!(Did::parse("not-a-did").is_err());
    assert!(Did::parse("did:sentinel:short").is_err());
    assert!(Did::parse(&format!("did:sentinel:{}", "z".repeat(64))).is_err());
}

#[test]
fn device_record_round_trip() {
    let id = DeviceIdentity::generate();
    let mut meta = JsonMap::new();
    meta.insert("model".to_string(), JsonValue::String("r2d2".to_string()));
    let rec = DeviceRecord::new(&id, JsonValue::Object(meta));
    assert_eq!(rec.did, *id.did());
    assert_eq!(rec.public_key_hex, id.public_key_hex());
    let vk = rec.verifying_key().unwrap();
    assert_eq!(vk.as_bytes(), id.public_key().as_bytes());
}

#[test]
fn rfc8032_public_key_and_signature() {
    let id = DeviceIdentity::from_secret_bytes(&unhex(RFC_SECRET)).unwrap();
    assert_eq!(id.public_key_hex(), RFC_PUBLIC);
    assert_eq!(id.public_key().to_bytes().to_vec(), unhex(RFC_PUBLIC));
    assert_eq!(id.sign_hex(b""), RFC_SIGNATURE);
    assert_eq!(id.sign(b"").to_bytes().to_vec(), unhex(RFC_SIGNATURE));
    assert_eq!(verify_hex(RFC_PUBLIC, b"", RFC_SIGNATURE).unwrap(), true);
    assert_eq!(verify_hex(RFC_PUBLIC, b"x", RFC_SIGNATURE).unwrap(), false);
}

#[test]
fn did_is_prefix_and_hex_of_sha256() {
    let id = DeviceIdentity::from_secret_bytes(&unhex(RFC_SECRET)).unwrap();
    let digest = sha2::Sha256::digest(unhex(RFC_PUBLIC));
    let expected = format!("did:sentinel:{}", hex::encode(digest));
    assert_eq!(id.did().as_str(), expected);
    assert_eq!(Did::parse(&expected).unwrap(), *id.did());
}

#[test]
fn secret_of_wrong_length_is_refused() {
    match DeviceIdentity::from_secret_bytes(&[7u8; 31]) {
        Err(IdentityError::InvalidSecretKey(n)) => assert_eq!(n, 31),
        _ => panic!("expected InvalidSecretKey"),
    }
    assert!(matches!(DeviceIdentity::from_secret_bytes(&[]), Err(IdentityError::InvalidSecretKey(0))));
}

#[test]
fn did_parse_errors_are_exact() {
    match Did::parse("not-a-did") {
        Err(IdentityError::InvalidDid(m)) => assert_eq!(m, "missing `did:sentinel:` prefix"),
        _ => panic!("expected InvalidDid"),
    }
    match Did::parse("did:sentinel:short") {
        Err(IdentityError::InvalidDid(m)) => assert_eq!(m, "expected 64-hex body, got 5 chars"),
        _ => panic!("expected InvalidDid"),
    }
    // 32 two-byte characters: 64 bytes but not hex; the first byte is 0xc3
    match Did::parse(&format!("did:sentinel:{}", "é".repeat(32))) {
        Err(IdentityError::Hex(HexError::InvalidHexCharacter { c, index })) => {
            assert_eq!(c, '\u{c3}');
            assert_eq!(index, 0);
        }
        _ => panic!("expected a hex error"),
    }
    match Did::parse(&format!("did:sentinel:{}g", "a".repeat(63))) {
        Err(IdentityError::Hex(HexError::InvalidHexCharacter { c, index })) => {
            assert_eq!(c, 'g');
            assert_eq!(index, 63);
        }
        _ => panic!("expected a hex error"),
    }
    let upper = format!("did:sentinel:{}", "AB".repeat(32));
    assert_eq!(Did::parse(&upper).unwrap().as_str(), upper);
    assert!(Did::parse("did:sentinel").is_err());
}

#[test]
fn verify_hex_reports_each_error() {
    let id = DeviceIdentity::from_secret_bytes(&unhex(RFC_SECRET)).unwrap();
    let sig = id.sign_hex(b"m");
    assert!(matches!(verify_hex("abc", b"m", &sig), Err(IdentityError::Hex(HexError::OddLength))));
    assert!(matches!(verify_hex("abcd", b"m", &sig), Err(IdentityError::InvalidPublicKey(2))));
    assert!(matches!(
        verify_hex(RFC_PUBLIC, b"m", "zz"),
        Err(IdentityError::Hex(HexError::InvalidHexCharacter { c: 'z', index: 0 }))
    ));
    match verify_hex(RFC_PUBLIC, b"m", "abcd") {
        Err(IdentityError::InvalidSignature(m)) => assert_eq!(m, "expected 64-byte signature, got 2"),
        _ => panic!("expected InvalidSignature"),
    }
    // a 32-byte string that is not a compressed curve point
    let mut bad = None;
    for i in 0u8..=255 {
        let mut b = [0u8; 32];
        b[0] = i;
        b[1] = 0x55;
        if ed25519_dalek::VerifyingKey::from_bytes(&b).is_err() {
            bad = Some(b);
            break;
        }
    }
    let bad = hex::encode(bad.expect("some candidate does not decompress"));
    match verify_hex(&bad, b"m", &sig) {
        Err(IdentityError::InvalidSignature(m)) => {
            assert_eq!(m, "signature error: Cannot decompress Edwards point")
        }
        _ => panic!("expected InvalidSignature"),
    }
    let rec = DeviceRecord::new(&id, JsonValue::Null);
    let record_with_bad_key = DeviceRecord { public_key_hex: bad, ..rec };
    assert!(matches!(record_with_bad_key.verifying_key(), Err(IdentityError::InvalidSignature(_))));
}

#[test]
fn verify_hex_ignores_letter_case() {
    let id = DeviceIdentity::from_secret_bytes(&unhex(RFC_SECRET)).unwrap();
    let sig = id.sign_hex(b"m");
    let pk = id.public_key_hex();
    assert!(verify_hex(&pk.to_ascii_uppercase(), b"m", &sig.to_ascii_uppercase()).unwrap());
    assert!(verify_hex(&pk, b"m", &sig.to_ascii_uppercase()).unwrap());
    assert!(!verify_hex(&pk.to_ascii_uppercase(), b"n", &sig).unwrap());
}

#[test]
fn device_records_compare_by_fields() {
    let id = DeviceIdentity::from_secret_bytes(&unhex(RFC_SECRET)).unwrap();
    let rec = DeviceRecord::new(&id, JsonValue::Null);
    let copy = rec.clone();
    assert_eq!(rec, copy);
    assert_eq!(copy.public_key_hex, RFC_PUBLIC);
}

#[test]
fn public_key_verifies_signatures() {
    let id = DeviceIdentity::from_secret_bytes(&unhex(RFC_SECRET)).unwrap();
    let pk = id.public_key();
    let sig = id.sign(b"");
    assert_eq!(hex::encode(sig.to_bytes()), RFC_SIGNATURE);
    assert!(pk.verify(b"", &sig));
    assert!(!pk.verify(b"x", &sig));
    let other = DeviceIdentity::generate();
    assert!(!other.public_key().verify(b"", &sig));
}
