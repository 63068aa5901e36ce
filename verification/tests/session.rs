use base64::engine::general_purpose::{STANDARD, URL_SAFE_NO_PAD};
use base64::Engine;
use skingetbe::raknet::constants::MAGIC;
use skingetbe::raknet::server::{Clock, Outgoing, PeerAddr};
use skingetbe::raknet::{RakNetConfig, RakNetServer};
use skingetbe::util::Buffer;

fn peer(last: u8, port: u16) -> PeerAddr {
    PeerAddr {
        text: format!("192.168.1.{}:{}", last, port),
        ipv4: Some([192, 168, 1, last]),
        ipv6: None,
        port,
    }
}

fn clock(ms: u64) -> Clock {
    Clock { mono_ns: ms * 1_000_000, wall_ms: ms }
}

fn connect(server: &mut RakNetServer, client: &PeerAddr) {
    let mut ocr1 = vec![0x05];
    ocr1.extend_from_slice(&MAGIC);
    ocr1.push(11);
    ocr1.extend_from_slice(&[0u8; 10]);
    server.handle_packet(&ocr1, client, &clock(0)).unwrap();
}

fn jwt_with_payload(payload: &str) -> String {
    format!(
        "{}.{}.{}",
        URL_SAFE_NO_PAD.encode(r#"{"alg":"none"}"#),
        URL_SAFE_NO_PAD.encode(payload),
        "sig"
    )
}

/// A Login packet: VarInt id 1, protocol 975 (big-endian), then the length-prefixed body.
fn login_packet() -> Vec<u8> {
    let chain_jwt = jwt_with_payload(r#"{"xname":"Alex","identity":"11111111-2222-3333-4444-555555555555"}"#);
    let chain_json = format!(r#"{{"chain":["{}"]}}"#, chain_jwt);
    let skin_b64 = STANDARD.encode(vec![7u8; 64 * 32 * 4]);
    let skin_jwt = jwt_with_payload(&format!(
        r#"{{"SkinId":"Custom","SkinData":"{}","SkinImageWidth":64,"SkinImageHeight":32}}"#,
        skin_b64
    ));
    let mut body = Buffer::new();
    body.write_u32_le(chain_json.len() as u32).unwrap();
    body.write_bytes(chain_json.as_bytes()).unwrap();
    body.write_u32_le(skin_jwt.len() as u32).unwrap();
    body.write_bytes(skin_jwt.as_bytes()).unwrap();
    let body = body.to_vec();
    let mut out = Buffer::new();
    out.write_var_int(0x01).unwrap();
    out.write_u32(975).unwrap();
    out.write_var_int(body.len() as u32).unwrap();
    out.write_bytes(&body).unwrap();
    out.to_vec()
}

#[test]
fn network_settings_request_turns_compression_on() {
    let mut sender = RakNetServer::new(RakNetConfig::default());
    let mut server = RakNetServer::new(RakNetConfig::default());
    let client = peer(20, 5000);
    connect(&mut server, &client);

    // an uncompressed batch with one RequestNetworkSettings packet (protocol 944)
    let request = [0xc1u8, 0x01, 0x00, 0x00, 0x03, 0xb0];
    let mut batch = vec![0xFE, request.len() as u8];
    batch.extend_from_slice(&request);
    let frames = sender.send_frame(&batch, 3, &peer(1, 19132), 0);
    let out = server.handle_packet(&frames[0], &client, &clock(1)).unwrap();
    assert_eq!(out.len(), 2);
    match &out[0] {
        Outgoing::Frame(p, rel) => {
            assert_eq!(*rel, 3);
            assert_eq!(p, &vec![0xFE, 12, 0x8f, 0x01, 0x01, 0x00, 0x00, 0x00, 0x00, 0, 0, 0, 0, 0]);
        }
        other => panic!("expected network settings, got {:?}", other),
    }
    let session = server.get_connection("192.168.1.20:5000").unwrap();
    assert!(session.compression_enabled);
    assert_eq!(session.bedrock_protocol, 944);
    assert_eq!(session.bedrock_version, "1.26.10");
    assert!(session.connected);
}

#[test]
fn login_asks_to_save_then_disconnects_the_client() {
    let mut server = RakNetServer::new(RakNetConfig::default());
    let client = peer(21, 5001);
    connect(&mut server, &client);

    let out = server.process_single_bedrock_packet(&login_packet(), &client);
    assert_eq!(out.len(), 1);
    let request = match &out[0] {
        Outgoing::SaveCapture(req) => req.clone(),
        other => panic!("expected a capture, got {:?}", other),
    };
    assert_eq!(request.protocol, 975);
    assert_eq!(request.player_name, "Alex");
    assert_eq!(request.skin_id, "Custom");
    assert_eq!(request.skin.width, 64);
    assert_eq!(request.skin.height, 32);
    assert_eq!(request.skin.data.len(), 64 * 32 * 4);
    assert_eq!(request.savemode, 2);
    assert_eq!(server.effective_protocol_version(), 975);
    assert_eq!(server.effective_version(), "1.26.21");

    // a failed save changes nothing
    assert!(server.capture_saved(&client, &request, Err("disk full".to_string())).is_empty());

    let steps = server.capture_saved(&client, &request, Ok(Some("skins/Alex_Custom.png".to_string())));
    assert_eq!(steps.len(), 7);
    assert!(matches!(steps[0], Outgoing::Frame(_, 3)));
    assert!(matches!(steps[1], Outgoing::Wait(150)));
    match &steps[2] {
        Outgoing::Frame(p, 3) => {
            let mut expected = vec![0xFE, 31, 0x05, 0x00, 0x00, 13];
            expected.extend_from_slice(b"Skin captured");
            expected.push(13);
            expected.extend_from_slice(b"Skin captured");
            assert_eq!(p, &expected);
        }
        other => panic!("expected the disconnect, got {:?}", other),
    }
    assert!(matches!(steps[3], Outgoing::Wait(100)));
    match &steps[4] {
        Outgoing::Frame(p, 3) => assert_eq!(p, &vec![0x15]),
        other => panic!("expected the notification, got {:?}", other),
    }
    assert!(matches!(steps[5], Outgoing::Wait(1500)));
    assert!(matches!(steps[6], Outgoing::RemoveConnection));
    let session = server.get_connection("192.168.1.21:5001").unwrap();
    assert_eq!(session.username.as_deref(), Some("Alex"));
    assert_eq!(session.skin_path.as_deref(), Some("skins/Alex_Custom.png"));
    assert!(!session.connected);

    server.remove_connection("192.168.1.21:5001", true);
    assert_eq!(server.connection_count(), 0);
}

#[test]
fn bedrock_packets_of_unknown_peers_are_ignored() {
    let mut server = RakNetServer::new(RakNetConfig::default());
    let out = server.process_single_bedrock_packet(&login_packet(), &peer(22, 5002));
    assert!(out.is_empty());
    assert_eq!(server.effective_protocol_version(), 924);
}
