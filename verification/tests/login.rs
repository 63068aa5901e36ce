use base64::engine::general_purpose::{STANDARD, URL_SAFE_NO_PAD};
use base64::Engine;
use skingetbe::bedrock::login::{capture_from_skin_payload, parse_login_packet, LoginData, ProtocolEncoding};
use skingetbe::crypto::jwt::JWT;
use skingetbe::util::Buffer;

fn jwt_with_payload(payload: &str) -> String {
    format!(
        "{}.{}.{}",
        URL_SAFE_NO_PAD.encode(r#"{"alg":"none"}"#),
        URL_SAFE_NO_PAD.encode(payload),
        "sig"
    )
}

fn login_payload(protocol: u32, protocol_encoding: ProtocolEncoding, has_payload_length: bool) -> Vec<u8> {
    let chain_jwt =
        jwt_with_payload(r#"{"xname":"Steve","identity":"00000000-0000-0000-0000-000000000000"}"#);
    let chain_json = format!(r#"{{"chain":["{}"]}}"#, chain_jwt);

    let skin_data = vec![0u8; 64 * 64 * 4];
    let skin_b64 = STANDARD.encode(skin_data);
    let skin_jwt = jwt_with_payload(&format!(
        r#"{{"SkinId":"Standard_Steve","SkinData":"{}","SkinImageWidth":64,"SkinImageHeight":64}}"#,
        skin_b64
    ));

    let mut body = Buffer::new();
    body.write_u32_le(chain_json.len() as u32).unwrap();
    body.write_bytes(chain_json.as_bytes()).unwrap();
    body.write_u32_le(skin_jwt.len() as u32).unwrap();
    body.write_bytes(skin_jwt.as_bytes()).unwrap();
    let body = body.to_vec();

    let mut out = Buffer::new();
    match protocol_encoding {
        ProtocolEncoding::U32Le => out.write_u32_le(protocol).unwrap(),
        ProtocolEncoding::U32Be => out.write_u32(protocol).unwrap(),
        ProtocolEncoding::VarInt => out.write_var_int(protocol).unwrap(),
    }
    if has_payload_length {
        out.write_var_int(body.len() as u32).unwrap();
    }
    out.write_bytes(&body).unwrap();
    out.to_vec()
}

#[test]
fn parses_legacy_u32_login_layout() {
    let parsed = parse_login_packet(&login_payload(766, ProtocolEncoding::U32Le, false))
        .unwrap()
        .expect("login should parse");

    assert_eq!(parsed.protocol, 766);
    assert_eq!(parsed.player_name, "Steve");
    assert_eq!(parsed.skin_id, "Standard_Steve");
    assert_eq!(parsed.skin_width, 64);
    assert_eq!(parsed.skin_height, 64);
}

#[test]
fn parses_varint_payload_length_login_layout() {
    let parsed = parse_login_packet(&login_payload(975, ProtocolEncoding::VarInt, true))
        .unwrap()
        .expect("login should parse");

    assert_eq!(parsed.protocol, 975);
    assert_eq!(parsed.player_name, "Steve");
    assert_eq!(parsed.skin_data.len(), 64 * 64 * 4);
}

#[test]
fn parses_big_endian_payload_length_login_layout() {
    let parsed = parse_login_packet(&login_payload(975, ProtocolEncoding::U32Be, true))
        .unwrap()
        .expect("login should parse");

    assert_eq!(parsed.protocol, 975);
    assert_eq!(parsed.player_name, "Steve");
    assert_eq!(parsed.skin_id, "Standard_Steve");
}

#[test]
fn login_without_known_layout_gives_nothing() {
    assert!(parse_login_packet(&[1, 2, 3]).unwrap().is_none());
    assert!(parse_login_packet(&[]).unwrap().is_none());
}

#[test]
fn login_metadata_comes_from_chain_and_skin_payloads() {
    let chain_jwt = jwt_with_payload(
        r#"{"extraData":{"displayName":"Alex","XUID":"123"},"DeviceOS":7}"#,
    );
    let chain_json = format!(r#"{{"chain":["{}"]}}"#, chain_jwt);
    let skin_b64 = STANDARD.encode(vec![1u8; 64 * 32 * 4]);
    let skin_jwt = jwt_with_payload(&format!(
        r#"{{"SkinId":"a/b","SkinData":"{}","DeviceModel":"Phone","PlayFabId":"pf"}}"#,
        skin_b64
    ));
    let mut out = Buffer::new();
    out.write_u32_le(800).unwrap();
    out.write_u32_le(chain_json.len() as u32).unwrap();
    out.write_bytes(chain_json.as_bytes()).unwrap();
    out.write_u32_le(skin_jwt.len() as u32).unwrap();
    out.write_bytes(skin_jwt.as_bytes()).unwrap();
    let parsed = parse_login_packet(&out.to_vec()).unwrap().expect("login should parse");
    assert_eq!(parsed.player_name, "Alex");
    assert_eq!(parsed.skin_id, "a_b");
    assert_eq!((parsed.skin_width, parsed.skin_height), (64, 32));
    assert_eq!(parsed.metadata.xuid.as_deref(), Some("123"));
    assert_eq!(parsed.metadata.device_os, Some(7));
    assert_eq!(parsed.metadata.device_model.as_deref(), Some("Phone"));
    assert_eq!(parsed.metadata.playfab_id.as_deref(), Some("pf"));
    assert_eq!(parsed.metadata.cape_data, None);
}

#[test]
fn login_with_unknown_player_uses_placeholder_name() {
    let chain_json = r#"{"chain":["no.jwt"]}"#.to_string();
    let skin_b64 = STANDARD.encode(vec![0u8; 64 * 64 * 4]);
    let skin_jwt = jwt_with_payload(&format!(r#"{{"SkinData":"{}"}}"#, skin_b64));
    let mut out = Buffer::new();
    out.write_u32_le(900).unwrap();
    out.write_u32_le(chain_json.len() as u32).unwrap();
    out.write_bytes(chain_json.as_bytes()).unwrap();
    out.write_u32_le(skin_jwt.len() as u32).unwrap();
    out.write_bytes(skin_jwt.as_bytes()).unwrap();
    let parsed = parse_login_packet(&out.to_vec()).unwrap().expect("login should parse");
    assert_eq!(parsed.player_name, "UnknownPlayer");
    assert_eq!(parsed.skin_id, "");
}

#[test]
fn login_data_rejects_short_packets() {
    assert!(LoginData::from_buffer(&[0u8; 7], 975).is_err());
    let data = LoginData::from_buffer_with_suffix(&[0u8; 8], 975, 12345).unwrap();
    assert_eq!(data.username, "Player_2345");
    assert_eq!(data.protocol, 975);
    assert_eq!(data.device_model, "Unknown");
    let random = LoginData::from_buffer(&[0u8; 8], 975).unwrap();
    assert!(random.username.starts_with("Player_"));
    let n: u32 = random.username["Player_".len()..].parse().unwrap();
    assert!(n < 10000);
}

#[test]
fn capture_is_built_from_decoded_skin_payload() {
    let skin_json = r#"{"SkinId":"a/b","SkinImageWidth":1,"SkinImageHeight":1}"#.to_string();
    let p = capture_from_skin_payload(
        944,
        "{}".to_string(),
        "h.p.s".to_string(),
        skin_json.clone(),
        Some(vec![1, 2, 3, 4]),
    )
    .expect("a usable image gives a capture");
    assert_eq!(p.protocol, 944);
    assert_eq!((p.skin_width, p.skin_height), (1, 1));
    assert_eq!(p.skin_data, vec![1, 2, 3, 4]);
    assert_eq!(p.skin_id, "a_b");
    assert_eq!(p.skin_json, skin_json);
    assert!(capture_from_skin_payload(944, "{}".into(), "h.p.s".into(), skin_json.clone(), None).is_none());
    assert!(capture_from_skin_payload(944, "{}".into(), "h.p.s".into(), skin_json, Some(vec![1, 2, 3])).is_none());
}

#[test]
fn decoded_text_reads_utf8() {
    assert_eq!(JWT::decoded_text(vec![0x68, 0xC3, 0xA9]).unwrap(), "hé");
    assert!(JWT::decoded_text(vec![0xFF]).is_err());
}
