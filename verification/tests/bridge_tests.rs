use pool_bridge::bridge::{build_json_request, prepare_typed_request, FromJson, HttpMethod, ToJson};
use pool_bridge::json::{decode_response, encode_request, encode_response, EchoRequest, EchoResponse};

#[test]
fn request_encodes_to_canonical_json() {
    let req = EchoRequest { id: 1 };
    assert_eq!(encode_request(&req), b"{\"id\": 1}".to_vec());
    let req = EchoRequest { id: 407 };
    assert_eq!(encode_request(&req), b"{\"id\": 407}".to_vec());
    let req = EchoRequest { id: u64::MAX };
    assert_eq!(encode_request(&req), b"{\"id\": 18446744073709551615}".to_vec());
}

#[test]
fn response_encodes_to_canonical_json() {
    let resp = EchoResponse { id: 1, status: b"ok".to_vec() };
    assert_eq!(encode_response(&resp), b"{\"id\": 1, \"status\": \"ok\"}".to_vec());
    let resp = EchoResponse { id: 0, status: Vec::new() };
    assert_eq!(encode_response(&resp), b"{\"id\": 0, \"status\": \"\"}".to_vec());
}

#[test]
fn echoed_body_decodes_to_matching_typed_structure() {
    let decoded = decode_response(b"{\"id\": 1, \"status\": \"ok\"}").unwrap();
    assert_eq!(decoded.id, 1);
    assert_eq!(decoded.status, b"ok".to_vec());
}

#[test]
fn round_trip_returns_the_encoded_value() {
    let sent = EchoResponse { id: 9000123, status: b"created (pending)".to_vec() };
    let body = encode_response(&sent);
    let back = decode_response(&body).unwrap();
    assert_eq!(back.id, sent.id);
    assert_eq!(back.status, sent.status);
}

#[test]
fn repeated_identical_calls_are_independent() {
    let req = EchoRequest { id: 42 };
    let first = prepare_typed_request("https://example.test/api", &req);
    let second = prepare_typed_request("https://example.test/api", &req);
    assert_eq!(first.url, second.url);
    assert_eq!(first.body, second.body);
    let body = b"{\"id\": 42, \"status\": \"ok\"}";
    let d1 = decode_response(body).unwrap();
    let d2 = decode_response(body).unwrap();
    assert_eq!(d1.id, d2.id);
    assert_eq!(d1.status, d2.status);
}

#[test]
fn malformed_bodies_are_rejected() {
    assert!(decode_response(b"").is_none());
    assert!(decode_response(b"{}").is_none());
    assert!(decode_response(b"{\"id\": , \"status\": \"ok\"}").is_none());
    assert!(decode_response(b"{\"id\": 1, \"status\": \"ok\"").is_none());
    assert!(decode_response(b"{\"id\": 1}").is_none());
    assert!(decode_response(b"[1, 2]").is_none());
    assert!(decode_response(b"{\"id\": 1, \"status\": \"ok\"} ").is_none());
}

#[test]
fn non_canonical_numbers_are_rejected() {
    assert!(decode_response(b"{\"id\": 01, \"status\": \"ok\"}").is_none());
    assert!(decode_response(b"{\"id\": -1, \"status\": \"ok\"}").is_none());
    assert!(decode_response(b"{\"id\": 18446744073709551616, \"status\": \"ok\"}").is_none());
    assert!(decode_response(b"{\"id\": 18446744073709551615, \"status\": \"x\"}").is_some());
}

#[test]
fn control_bytes_in_status_are_rejected() {
    assert!(decode_response(b"{\"id\": 1, \"status\": \"a\tb\"}").is_none());
    assert!(decode_response(b"{\"id\": 1, \"status\": \"a\\b\"}").is_none());
}

#[test]
fn encoder_output_is_real_json() {
    let resp = EchoResponse { id: 1, status: b"ok".to_vec() };
    let text = String::from_utf8(encode_response(&resp)).unwrap();
    let value: serde_json::Value = serde_json::from_str(&text).unwrap();
    assert_eq!(value.get("id").and_then(|v| v.as_u64()), Some(1));
    assert_eq!(value.get("status").and_then(|v| v.as_str()), Some("ok"));
    let req = EchoRequest { id: 7 };
    let text = String::from_utf8(encode_request(&req)).unwrap();
    let value: serde_json::Value = serde_json::from_str(&text).unwrap();
    assert_eq!(value.get("id").and_then(|v| v.as_u64()), Some(7));
}

#[test]
fn built_request_is_a_json_post() {
    let r = build_json_request("https://example.test/api", b"{\"id\": 5}".to_vec());
    assert_eq!(r.method, HttpMethod::Post);
    assert_eq!(r.accept, "application/json");
    assert_eq!(r.content_type, "application/json");
    assert_eq!(r.url, "https://example.test/api");
    assert_eq!(r.body, b"{\"id\": 5}".to_vec());
}

#[test]
fn capability_traits_agree_with_the_codec() {
    let req = EchoRequest { id: 3 };
    assert_eq!(req.to_json(), encode_request(&req));
    let resp: EchoResponse = EchoResponse::from_json(b"{\"id\": 3, \"status\": \"ok\"}").unwrap();
    assert_eq!(resp.id, 3);
    assert_eq!(resp.status, b"ok".to_vec());
    let rejected: Option<EchoResponse> = EchoResponse::from_json(b"{\"id\": }");
    assert!(rejected.is_none());
}

#[test]
fn prepared_request_carries_the_encoded_value() {
    let req = EchoRequest { id: 5 };
    let r = prepare_typed_request("https://example.test/api", &req);
    assert_eq!(r.method, HttpMethod::Post);
    assert_eq!(r.body, encode_request(&req));
}
