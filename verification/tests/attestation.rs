use sentinel_core::attestation::{AttestationError, Claim, ClaimBody, ClaimKind};
use sentinel_core::identity::{DeviceIdentity, Did, IdentityError};
use sentinel_core::json::{canonicalize, JsonMap, JsonNumber, JsonValue};
use sentinel_core::time::Timestamp;
use sha2::Digest;

fn object(entries: Vec<(&str, JsonValue)>) -> JsonValue {
    let mut m = JsonMap::new();
    for (k, v) in entries {
        m.insert(k.to_string(), v);
    }
    JsonValue::Object(m)
}

fn string(s: &str) -> JsonValue {
    JsonValue::String(s.to_string())
}

fn num(i: u64) -> JsonValue {
    JsonValue::Number(JsonNumber::from_u64(i))
}

fn sample_body(id: &DeviceIdentity) -> ClaimBody {
    ClaimBody {
        kind: ClaimKind::FirmwareHash,
        subject: id.did().clone(),
        issued_at: Timestamp::now(),
        nonce: "n-1".into(),
        payload: object(vec![("sha256", string("deadbeef")), ("version", string("1.2.3"))]),
    }
}

#[test]
fn sign_and_verify() {
    let id = DeviceIdentity::generate();
    let claim = Claim::sign(&id, sample_body(&id)).unwrap();
    claim.verify().unwrap();
}

#[test]
fn lib_verify_fails_on_tampered_payload() {
    let id = DeviceIdentity::generate();
    let mut claim = Claim::sign(&id, sample_body(&id)).unwrap();
    claim.body.payload = object(vec![("sha256", string("feedface"))]);
    assert!(matches!(claim.verify(), Err(AttestationError::InvalidSignature)));
}

#[test]
fn canonical_form_is_order_independent() {
    let id = DeviceIdentity::generate();
    let issued_at = Timestamp::now();
    let body = ClaimBody {
        kind: ClaimKind::Custom,
        subject: id.did().clone(),
        issued_at,
        nonce: "x".into(),
        payload: object(vec![("b", num(1)), ("a", num(2))]),
    };
    let body2 = ClaimBody {
        payload: object(vec![("a", num(2)), ("b", num(1))]),
        ..body.clone()
    };
    assert_eq!(body.digest_hex().unwrap(), body2.digest_hex().unwrap());
}

fn fixed_body() -> ClaimBody {
    ClaimBody {
        kind: ClaimKind::FirmwareHash,
        subject: Did::parse(&format!("did:sentinel:{}", "0".repeat(64))).unwrap(),
        issued_at: Timestamp::from_unix(0, 0).unwrap(),
        nonce: "n-1".into(),
        payload: object(vec![
            ("b", num(1)),
            (
                "a",
                JsonValue::Array(vec![
                    JsonValue::Bool(true),
                    JsonValue::Null,
                    JsonValue::Number(JsonNumber::from_i64(-5)),
                    string("x\"y"),
                ]),
            ),
        ]),
    }
}

const FIXED_CANONICAL: &str = "{\"issued_at\":\"1970-01-01T00:00:00Z\",\"kind\":\"firmware_hash\",\"nonce\":\"n-1\",\"payload\":{\"a\":[true,null,-5,\"x\\\"y\"],\"b\":1},\"subject\":\"did:sentinel:0000000000000000000000000000000000000000000000000000000000000000\"}";

#[test]
fn canonical_bytes_of_a_fixed_body() {
    let body = fixed_body();
    assert_eq!(body.canonical_bytes().unwrap(), FIXED_CANONICAL.as_bytes().to_vec());
    let digest = hex::encode(sha2::Sha256::digest(FIXED_CANONICAL.as_bytes()));
    assert_eq!(body.digest_hex().unwrap(), digest);
}

#[test]
fn claim_sign_fills_key_and_signature() {
    let id = DeviceIdentity::from_secret_bytes(&[1u8; 32]).unwrap();
    let claim = Claim::sign(&id, fixed_body()).unwrap();
    assert_eq!(claim.public_key_hex, id.public_key_hex());
    assert_eq!(claim.signature_hex, id.sign_hex(FIXED_CANONICAL.as_bytes()));
    assert_eq!(claim.body, fixed_body());
    // the fixed body names another device, so the claim does not verify
    assert!(matches!(claim.verify(), Err(AttestationError::InvalidSignature)));
    let own = ClaimBody { subject: id.did().clone(), ..fixed_body() };
    Claim::sign(&id, own).unwrap().verify().unwrap();
}

#[test]
fn verify_reports_a_bad_key() {
    let id = DeviceIdentity::generate();
    let mut claim = Claim::sign(&id, sample_body(&id)).unwrap();
    claim.public_key_hex = "abc".into();
    assert!(matches!(claim.verify(), Err(AttestationError::Identity(IdentityError::Hex(_)))));
}

#[test]
fn verify_fails_under_another_key() {
    let id = DeviceIdentity::generate();
    let other = DeviceIdentity::generate();
    let mut claim = Claim::sign(&id, sample_body(&id)).unwrap();
    claim.public_key_hex = other.public_key_hex();
    assert!(matches!(claim.verify(), Err(AttestationError::InvalidSignature)));
}

#[test]
fn kind_names_are_snake_case() {
    assert_eq!(ClaimKind::FirmwareHash.name(), "firmware_hash");
    assert_eq!(ClaimKind::MeasuredBoot.name(), "measured_boot");
    assert_eq!(ClaimKind::SoftwareBom.name(), "software_bom");
    assert_eq!(ClaimKind::Custom.name(), "custom");
}

#[test]
fn canonicalize_sorts_keys_by_bytes_at_every_level() {
    let v = object(vec![
        ("z", object(vec![("y", num(1)), ("x", JsonValue::Bool(false))])),
        ("\u{e9}", num(2)),
        ("a", JsonValue::Array(vec![])),
        ("ab", object(vec![])),
    ]);
    assert_eq!(canonicalize(&v), "{\"a\":[],\"ab\":{},\"z\":{\"x\":false,\"y\":1},\"\u{e9}\":2}");
}

#[test]
fn canonicalize_escapes_and_numbers() {
    let v = JsonValue::Array(vec![
        string("tab\there\nquote\"back\\slash\u{1}"),
        JsonValue::Number(JsonNumber::from_i64(i64::MIN)),
        JsonValue::Number(JsonNumber::from_u64(u64::MAX)),
        JsonValue::Number(JsonNumber::from_float_text("1.5".to_string()).unwrap()),
        num(0),
    ]);
    assert_eq!(
        canonicalize(&v),
        "[\"tab\\there\\nquote\\\"back\\\\slash\\u0001\",-9223372036854775808,18446744073709551615,1.5,0]"
    );
}

#[test]
fn insert_replaces_an_existing_key_in_place() {
    let mut m = JsonMap::new();
    m.insert("k".to_string(), num(1));
    m.insert("j".to_string(), num(2));
    m.insert("k".to_string(), num(3));
    assert_eq!(m.len(), 2);
    assert_eq!(m.entries()[0].0, "j");
    assert_eq!(m.entries()[0].1, num(2));
    assert_eq!(m.entries()[1].0, "k");
    assert_eq!(m.entries()[1].1, num(3));
    assert_eq!(canonicalize(&JsonValue::Object(m)), "{\"j\":2,\"k\":3}");
}

#[test]
fn timestamps_format_as_rfc3339() {
    assert_eq!(Timestamp::from_unix(0, 0).unwrap().to_rfc3339(), "1970-01-01T00:00:00Z");
    assert_eq!(Timestamp::from_unix(1, 123_000_000).unwrap().to_rfc3339(), "1970-01-01T00:00:01.123Z");
    assert!(Timestamp::from_unix(0, 2_000_000_000).is_none());
    let t = Timestamp::from_unix(1_700_000_000, 5).unwrap();
    assert_eq!(t.unix_seconds(), 1_700_000_000);
    assert_eq!(t.subsec_nanos(), 5);
    assert!(Timestamp::now().unix_seconds() > 1_600_000_000);
}

#[test]
fn canonical_form_ignores_member_order_at_every_depth() {
    let a = object(vec![
        ("outer", object(vec![("y", num(1)), ("x", JsonValue::Array(vec![object(vec![("q", num(2)), ("p", num(3))])]))])),
        ("first", JsonValue::Null),
    ]);
    let b = object(vec![
        ("first", JsonValue::Null),
        ("outer", object(vec![("x", JsonValue::Array(vec![object(vec![("p", num(3)), ("q", num(2))])])), ("y", num(1))])),
    ]);
    assert_eq!(canonicalize(&a), canonicalize(&b));
    assert_eq!(canonicalize(&a), "{\"first\":null,\"outer\":{\"x\":[{\"p\":3,\"q\":2}],\"y\":1}}");
}

#[test]
fn objects_with_the_same_members_are_equal() {
    let a = object(vec![("b", num(1)), ("a", num(2)), ("c", JsonValue::Null)]);
    let b = object(vec![("c", JsonValue::Null), ("a", num(2)), ("b", num(1))]);
    assert_eq!(a, b);
    let c = object(vec![("a", num(2)), ("b", num(9)), ("c", JsonValue::Null)]);
    assert_ne!(a, c);
}

#[test]
fn end_to_end_attestation() {
    let device = DeviceIdentity::generate();
    let body = ClaimBody {
        kind: ClaimKind::FirmwareHash,
        subject: device.did().clone(),
        issued_at: Timestamp::now(),
        nonce: "boot-1".into(),
        payload: object(vec![("sha256", string(&"00".repeat(32)))]),
    };
    let claim = Claim::sign(&device, body).unwrap();
    claim.verify().unwrap();
    assert_eq!(claim.body.digest_hex().unwrap().len(), 64);
}

#[test]
fn distinct_bodies_have_distinct_canonical_bytes() {
    let body = fixed_body();
    let mut other = body.clone();
    other.nonce = "n-2".into();
    assert_ne!(body.canonical_bytes().unwrap(), other.canonical_bytes().unwrap());
    let mut other = body.clone();
    other.payload = object(vec![("b", num(1)), ("a", JsonValue::Array(vec![]))]);
    assert_ne!(body.canonical_bytes().unwrap(), other.canonical_bytes().unwrap());
    let mut other = body.clone();
    other.kind = ClaimKind::Custom;
    assert_ne!(body.canonical_bytes().unwrap(), other.canonical_bytes().unwrap());
    assert_eq!(body.clone(), body);
}

#[test]
fn canonical_text_tells_values_apart() {
    let a = JsonValue::Array(vec![string("a,b")]);
    let b = JsonValue::Array(vec![string("a"), string("b")]);
    assert_ne!(canonicalize(&a), canonicalize(&b));
    let c = object(vec![("k", string("v\\"))]);
    let d = object(vec![("k", string("v"))]);
    assert_ne!(canonicalize(&c), canonicalize(&d));
    assert_eq!(canonicalize(&c.clone()), canonicalize(&c));
}

#[test]
fn numbers_with_the_same_value_are_equal() {
    assert_eq!(JsonNumber::from_i64(5), JsonNumber::from_u64(5));
    assert_eq!(JsonNumber::from_i64(5).as_u64(), Some(5));
    assert_eq!(JsonNumber::from_u64(u64::MAX).as_i64(), None);
    assert_eq!(JsonNumber::from_i64(-3).as_u64(), None);
    assert_eq!(JsonNumber::from_i64(-3).as_i64(), Some(-3));
    assert!(JsonNumber::from_float_text("5".to_string()).is_none());
    assert!(JsonNumber::from_float_text("-0.0".to_string()).is_some());
    assert_eq!(JsonNumber::from_float_text("1e3".to_string()).unwrap().float_text(), Some("1e3"));
    let a = JsonValue::Number(JsonNumber::from_i64(7));
    let b = num(7);
    assert_eq!(a, b);
    assert_eq!(canonicalize(&a), canonicalize(&b));
}

#[test]
fn claim_about_another_device_is_refused() {
    let a = DeviceIdentity::generate();
    let b = DeviceIdentity::generate();
    let body = sample_body(&a);
    let claim = Claim::sign(&b, body).unwrap();
    assert!(matches!(claim.verify(), Err(AttestationError::InvalidSignature)));
    let claim = Claim::sign(&a, sample_body(&a)).unwrap();
    claim.verify().unwrap();
}
