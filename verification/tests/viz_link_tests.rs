use flint_core::viz_link::{check_payload_version, decode, encode, failure_url, VizError, PAYLOAD_VERSION};

fn sample_json() -> Vec<u8> {
    let mut payload = serde_json::Map::new();
    payload.insert("version".to_string(), serde_json::Value::from(PAYLOAD_VERSION));
    payload.insert("total_ticks".to_string(), serde_json::Value::from(42));
    payload.insert("source_path".to_string(), serde_json::Value::from("tests/round-trip.flint.json"));
    serde_json::to_vec(&serde_json::Value::Object(payload)).unwrap()
}

#[test]
fn round_trips() {
    let json = sample_json();
    let encoded = encode(&json).unwrap();
    let decoded = decode(&encoded).unwrap();
    assert_eq!(decoded, json);
    let value: serde_json::Value = serde_json::from_slice(&decoded).unwrap();
    assert_eq!(value["total_ticks"], serde_json::Value::from(42));
}

#[test]
fn encoded_blob_is_url_safe() {
    let encoded = encode(&sample_json()).unwrap();
    assert!(
        encoded.chars().all(|c| c.is_ascii_alphanumeric() || c == '-' || c == '_'),
        "encoded blob must be URL-safe (got: {encoded})",
    );
}

#[test]
fn rejects_wrong_version() {
    let err = check_payload_version(99).unwrap_err();
    assert_eq!(err, VizError::VersionMismatch { got: 99 });
    assert!(err.message().contains("version mismatch"), "unexpected error: {}", err.message());
    assert!(check_payload_version(PAYLOAD_VERSION).is_ok());
}

#[test]
fn rejects_garbage() {
    assert_eq!(decode("not base64!!!"), Err(VizError::Base64));
    assert_eq!(decode("aGVsbG8"), Err(VizError::Gzip)); // valid base64, bad gzip
}

#[test]
fn failure_url_uses_fragment_and_trims_trailing_slash() {
    let url = failure_url(&sample_json(), "http://localhost:7878/").unwrap();
    assert!(url.starts_with("http://localhost:7878/failure#data="));
    assert!(!url.contains("?data="));
    let encoded = encode(&sample_json()).unwrap();
    assert_eq!(url, format!("http://localhost:7878/failure#data={encoded}"));
}

#[test]
fn supports_zero_failures_for_forward_compat() {
    let mut payload = serde_json::Map::new();
    payload.insert("version".to_string(), serde_json::Value::from(PAYLOAD_VERSION));
    payload.insert("failures".to_string(), serde_json::Value::Array(vec![]));
    let json = serde_json::to_vec(&serde_json::Value::Object(payload)).unwrap();
    let decoded = decode(&encode(&json).unwrap()).unwrap();
    let value: serde_json::Value = serde_json::from_slice(&decoded).unwrap();
    assert!(value["failures"].as_array().unwrap().is_empty());
}

#[test]
fn decodes_known_url_safe_base64_gzip_text() {
    // gzip of "hi" written in URL-safe base64 without padding.
    assert_eq!(decode("H4sIAAAAAAACA8vIBACsKpPYAgAAAA").unwrap(), b"hi".to_vec());
    // Padding is refused.
    assert_eq!(decode("H4sIAAAAAAACA8vIBACsKpPYAgAAAA=="), Err(VizError::Base64));
}
