use skingetbe::bedrock::packets::{BedrockPacketType, Packets};
use skingetbe::bedrock::responses::{build_disconnect, build_network_settings, build_play_status};
use skingetbe::bedrock::version::{
    get_latest_protocol, get_latest_version, lookup_version, resolve_version, set_fallback_protocol,
    set_fallback_version, VersionFallback,
};
use skingetbe::error::Error;
use skingetbe::raknet::frames::write_u24_le;
use skingetbe::raknet::packet::{RakNetPacket, RakNetPacketType};
use skingetbe::util::buffer::Buffer;
use skingetbe::util::logger::{level_from_verbosity, LogLevel};

#[test]
fn buffer_reads_back_what_was_written() {
    let mut b = Buffer::new();
    b.write_u8(0xAB).unwrap();
    b.write_u16(0x1234).unwrap();
    b.write_u16_le(0x1234).unwrap();
    b.write_u32(0xDEADBEEF).unwrap();
    b.write_u32_le(0xDEADBEEF).unwrap();
    b.write_u24_le(0x00ABCDEF).unwrap();
    b.write_u64(0x0102030405060708).unwrap();
    b.write_u64_le(0x0102030405060708).unwrap();
    b.write_var_int(300).unwrap();
    b.write_bool(true).unwrap();
    b.write_bytes(&[9, 8, 7]).unwrap();
    assert_eq!(b.len(), 38);
    assert_eq!(b.position(), 0);

    let mut r = Buffer::from(b.as_slice());
    assert_eq!(r.read_u8().unwrap(), 0xAB);
    assert_eq!(r.read_u16().unwrap(), 0x1234);
    assert_eq!(r.read_u16_le().unwrap(), 0x1234);
    assert_eq!(r.read_u32().unwrap(), 0xDEADBEEF);
    assert_eq!(r.read_u32_le().unwrap(), 0xDEADBEEF);
    assert_eq!(r.read_u24_le().unwrap(), 0x00ABCDEF);
    assert_eq!(r.read_u64().unwrap(), 0x0102030405060708);
    assert_eq!(r.read_u64_le().unwrap(), 0x0102030405060708);
    assert_eq!(r.read_var_int().unwrap(), 300);
    assert_eq!(r.read_u8().unwrap(), 1);
    assert_eq!(r.peek_u8(1).unwrap(), 8);
    assert_eq!(r.read_bytes(3).unwrap(), vec![9, 8, 7]);
    assert!(!r.has_remaining());
    assert!(r.read_u8().is_err());
}

#[test]
fn buffer_exact_encodings() {
    let mut b = Buffer::new();
    b.write_u16(0x0102).unwrap();
    b.write_u32_le(0x01020304).unwrap();
    b.write_signed_var_int(-1).unwrap();
    b.write_var_string("hé").unwrap();
    assert_eq!(
        b.to_vec(),
        vec![0x01, 0x02, 0x04, 0x03, 0x02, 0x01, 0xFF, 0xFF, 0xFF, 0xFF, 0x0F, 3, b'h', 0xC3, 0xA9]
    );
    b.reset();
    assert_eq!(b.position(), 0);
    assert_eq!(b.remaining(), 15);
    b.clear();
    assert!(b.is_empty());
}

#[test]
fn buffer_short_reads_fail_and_remaining_is_drained() {
    let mut r = Buffer::from(&[1, 2, 3]);
    assert!(r.read_u32().is_err());
    assert!(r.read_bytes(4).is_err());
    r.set_position(1);
    assert_eq!(r.read_remaining(), vec![2, 3]);
    assert_eq!(r.remaining(), 0);
    let mut v = Buffer::from(&[0x80, 0x80, 0x80, 0x80, 0x80, 0x01]);
    assert!(v.read_var_int().is_err());
}

#[test]
fn write_u24_le_appends_three_bytes() {
    let mut v = vec![7u8];
    write_u24_le(&mut v, 0x00112233);
    assert_eq!(v, vec![7, 0x33, 0x22, 0x11]);
}

#[test]
fn log_levels_from_verbosity() {
    assert_eq!(level_from_verbosity(0), LogLevel::Error);
    assert_eq!(level_from_verbosity(1), LogLevel::Warn);
    assert_eq!(level_from_verbosity(2), LogLevel::Info);
    assert_eq!(level_from_verbosity(3), LogLevel::Debug);
    assert_eq!(level_from_verbosity(4), LogLevel::Trace);
    assert_eq!(level_from_verbosity(200), LogLevel::Trace);
}

#[test]
fn raknet_packet_type_ids() {
    assert_eq!(RakNetPacketType::OpenConnectionRequest1.id(), 0x01);
    assert_eq!(RakNetPacketType::OpenConnectionReply1.id(), 0x1F);
    assert_eq!(RakNetPacketType::OpenConnectionRequest2.id(), 0x02);
    assert_eq!(RakNetPacketType::OpenConnectionReply2.id(), 0x1E);
    assert_eq!(RakNetPacketType::IncompatibleProtocolVersion.id(), 0x19);
    assert_eq!(RakNetPacketType::AlreadyConnected.id(), 0x12);
    assert_eq!(RakNetPacketType::GamePacket.id(), 0x60);
    let p = RakNetPacket::new(RakNetPacketType::GamePacket, vec![1, 2]);
    assert_eq!(p.packet_id, RakNetPacketType::GamePacket);
    assert_eq!(p.payload, vec![1, 2]);
}

#[test]
fn bedrock_packet_encode_parse() {
    let encoded = Packets::encode(BedrockPacketType::RequestNetworkSettings, &[0, 0, 3, 207]);
    assert_eq!(encoded, vec![0xc1, 0, 0, 3, 207]);
    let (t, rest) = Packets::parse(&encoded).unwrap();
    assert_eq!(t, BedrockPacketType::RequestNetworkSettings);
    assert_eq!(rest, vec![0, 0, 3, 207]);
    assert!(matches!(Packets::parse(&[]), Err(Error::InvalidData(_))));
    assert!(matches!(Packets::parse(&[0xfe]), Err(Error::ProtocolError(_))));
    match Packets::parse(&[0x33]) {
        Err(Error::ProtocolError(m)) => assert_eq!(m, "Unknown packet type: 0x33"),
        other => panic!("unexpected {:?}", other),
    }
}

#[test]
fn versions_resolve_with_fallback() {
    assert_eq!(lookup_version(975), Some("1.26.21"));
    assert_eq!(lookup_version(766), Some("1.21.50"));
    assert_eq!(lookup_version(1), None);
    assert_eq!(get_latest_protocol(), 975);
    assert_eq!(get_latest_version(), "1.26.21");
    let mut fallback = VersionFallback::new();
    assert_eq!(resolve_version(&fallback, 5), "1.26.21");
    set_fallback_version(&mut fallback, "9.9.9");
    set_fallback_protocol(&mut fallback, 999);
    assert_eq!(fallback.protocol, 999);
    assert_eq!(resolve_version(&fallback, 5), "9.9.9");
    assert_eq!(resolve_version(&fallback, 944), "1.26.10");
}

#[test]
fn response_packets_exact_bytes() {
    assert_eq!(build_play_status(0), vec![0x02, 0, 0, 0, 0]);
    assert_eq!(build_play_status(3), vec![0x02, 3, 0, 0, 0]);
    assert_eq!(build_network_settings(), vec![0x8f, 0x01, 0x01, 0x00, 0x00, 0x00, 0x00, 0, 0, 0, 0, 0]);
    assert_eq!(
        build_disconnect(0, "Hi"),
        vec![0x05, 0x00, 0x00, 2, b'H', b'i', 2, b'H', b'i']
    );
    assert_eq!(build_disconnect(-1, "")[1..6], [0xFF, 0xFF, 0xFF, 0xFF, 0x0F]);
}

#[test]
fn error_text_has_kind_prefix() {
    assert_eq!(Error::ProtocolError("x".to_string()).to_text(), "Bedrock protocol error: x");
    assert_eq!(Error::InvalidData("y".to_string()).to_text(), "Invalid data: y");
    assert_eq!(Error::IoError("z".to_string()).to_text(), "IO error: z");
    assert_eq!(Error::CryptoError("c".to_string()).to_text(), "Cryptography error: c");
    assert_eq!(Error::JsonError("j".to_string()).to_text(), "JSON error: j");
    assert_eq!(Error::Other("o".to_string()).to_text(), "Unknown error: o");
}

#[test]
fn unknown_protocol_is_warned_about_once() {
    let mut fb = VersionFallback::new();
    assert_eq!(
        fb.warn_unknown_once(999).as_deref(),
        Some("Unknown Bedrock protocol 999 - falling back to 1.26.21")
    );
    assert_eq!(fb.warn_unknown_once(999), None);
    assert_eq!(fb.warn_unknown_once(975), None);
    assert_eq!(resolve_version(&fb, 999), "1.26.21");
}

#[test]
fn var_int_is_minimal_leb128() {
    let mut b = Buffer::new();
    b.write_var_int(300).unwrap();
    assert_eq!(b.as_slice(), &[0xAC, 0x02]);
    let mut b = Buffer::new();
    b.write_var_int(0).unwrap();
    assert_eq!(b.as_slice(), &[0x00]);
    let mut b = Buffer::new();
    b.write_var_int(u32::MAX).unwrap();
    assert_eq!(b.as_slice(), &[0xFF, 0xFF, 0xFF, 0xFF, 0x0F]);
    let mut r = Buffer::from(&[0xAC, 0x02]);
    assert_eq!(r.read_var_int().unwrap(), 300);
    assert_eq!(r.position(), 2);
}

#[test]
fn u64_written_reads_back() {
    let v = 0x0102_0304_0506_0708u64;
    let mut b = Buffer::new();
    b.write_u64_le(v).unwrap();
    assert_eq!(b.read_u64_le().unwrap(), v);
    assert_eq!(b.position(), 8);
    let mut b = Buffer::new();
    b.write_u64(v).unwrap();
    assert_eq!(b.read_u64_le().unwrap(), v.swap_bytes());
    let mut b = Buffer::new();
    b.write_u64(v).unwrap();
    assert_eq!(b.read_u64().unwrap(), v);
}
