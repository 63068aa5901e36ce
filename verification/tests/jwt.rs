use base64::engine::general_purpose::URL_SAFE_NO_PAD;
use base64::Engine;
use skingetbe::crypto::jwt::{parse_auth_chain, JWT};

#[test]
fn test_jwt_parse() {
    let token = "header.payload.signature";
    let jwt = JWT::parse(token).unwrap();
    assert_eq!(jwt.header, "header");
    assert_eq!(jwt.payload, "payload");
    assert_eq!(jwt.signature, "signature");
}

#[test]
fn test_invalid_jwt() {
    let token = "only.two";
    assert!(JWT::parse(token).is_err());
}

#[test]
fn test_get_json_value_string() {
    let json = r#"{"name": "Steve", "age": 30}"#;
    let value = JWT::get_json_value(json, "name");
    assert_eq!(value, Some("Steve".to_string()));
}

#[test]
fn test_get_json_value_number() {
    let json = r#"{"name": "Steve", "age": 30}"#;
    let value = JWT::get_json_value(json, "age");
    assert_eq!(value, Some("30".to_string()));
}

#[test]
fn json_value_keeps_escapes_and_misses_unknown_keys() {
    let json = r#"{"a":"x\"y","b":true}"#;
    assert_eq!(JWT::get_json_value(json, "a"), Some(r#"x\"y"#.to_string()));
    assert_eq!(JWT::get_json_value(json, "b"), Some("true".to_string()));
    assert_eq!(JWT::get_json_value(json, "c"), None);
}

#[test]
fn payload_decodes_with_and_without_padding() {
    let token = format!("h.{}.s", URL_SAFE_NO_PAD.encode(r#"{"k":1}"#));
    assert_eq!(JWT::get_payload(&token).unwrap(), r#"{"k":1}"#);
    assert!(JWT::get_payload("nodots").is_err());
    assert!(JWT::get_payload("a.!!!.c").is_err());
    let jwt = JWT::parse(&token).unwrap();
    assert_eq!(jwt.decode_payload().unwrap(), r#"{"k":1}"#);
    assert!(jwt.verify(&[]).unwrap());
}

#[test]
fn auth_chain_collects_decodable_tokens() {
    let t1 = format!("h.{}.s", URL_SAFE_NO_PAD.encode("one"));
    let t2 = format!("h.{}.s", URL_SAFE_NO_PAD.encode("two"));
    let chain = format!(r#"{{"chain":["{}","not a token","{}"]}}"#, t1, t2);
    assert_eq!(parse_auth_chain(&chain).unwrap(), vec!["one".to_string(), "two".to_string()]);
}

#[test]
fn padded_payload_decodes_like_unpadded() {
    let padded = JWT { header: "h".into(), payload: "eyJhIjoxfQ==".into(), signature: "s".into() };
    assert_eq!(padded.decode_payload().unwrap(), r#"{"a":1}"#);
    let bare = JWT { header: "h".into(), payload: "eyJhIjoxfQ".into(), signature: "s".into() };
    assert_eq!(bare.decode_payload().unwrap(), r#"{"a":1}"#);
    assert!(JWT::decode_base64("e").is_err());
}
