use snob_core::secret::Secret;
use snob_core::watch::sign::{header_value, sign, sign_bytes, HEADER};

#[test]
fn it_matches_the_published_test_vector() {
    assert_eq!(
        sign_bytes(b"Hi There", &[0x0b; 20]),
        "sha256=b0344c61d8db38535ca8afceaf0bf12b881dc200c9833da726e9376c2e32cff7"
    );
}

#[test]
fn it_handles_a_key_longer_than_the_block() {
    assert_eq!(
        sign_bytes(b"Test Using Larger Than Block-Size Key - Hash Key First", &[0xaa; 131]),
        "sha256=60e431591ee0b67f0d8a26aacbf5b77f8e0bc6213728c5140546040f0ee37f54"
    );
}

#[test]
fn the_public_signature_is_the_one_the_vectors_check() {
    let key = "a shared secret";
    assert_eq!(
        sign("a body", &Secret::from(key.to_string())),
        sign_bytes(b"a body", key.as_bytes())
    );
}

#[test]
fn a_body_that_differs_by_one_byte_signs_differently() {
    let key = Secret::from("shared".to_string());
    assert_ne!(sign(r#"{"a":1}"#, &key), sign(r#"{"a":2}"#, &key));
}

#[test]
fn a_different_key_signs_differently() {
    let body = r#"{"a":1}"#;
    assert_ne!(
        sign(body, &Secret::from("one".to_string())),
        sign(body, &Secret::from("two".to_string()))
    );
}

#[test]
fn the_value_is_a_prefixed_hex_digest() {
    let value = sign("anything", &Secret::from("k".to_string()));
    let hex = value.strip_prefix("sha256=").expect("the prefix is part of it");
    assert_eq!(hex.len(), 64, "SHA-256 is 32 bytes");
    assert!(hex.chars().all(|c| c.is_ascii_hexdigit() && !c.is_uppercase()));
}

#[test]
fn a_digest_is_written_byte_by_byte() {
    assert_eq!(header_value(&[0x00, 0x0f, 0xa0, 0xff]), "sha256=000fa0ff");
    assert_eq!(HEADER, "X-Snob-Signature");
}
