use skingetbe::bedrock::version::{resolve_version, VersionFallback};
use skingetbe::raknet::constants::MAGIC;
use skingetbe::raknet::server::{Clock, Outgoing, PeerAddr};
use skingetbe::raknet::{RakNetConfig, RakNetProtocol, RakNetServer};

fn peer(octets: [u8; 4], port: u16) -> PeerAddr {
    PeerAddr {
        text: format!("{}.{}.{}.{}:{}", octets[0], octets[1], octets[2], octets[3], port),
        ipv4: Some(octets),
        ipv6: None,
        port,
    }
}

fn clock(ms: u64) -> Clock {
    Clock { mono_ns: ms * 1_000_000, wall_ms: ms }
}

fn datagram(o: &Outgoing) -> Vec<u8> {
    match o {
        Outgoing::Datagram(p) => p.clone(),
        other => panic!("expected a datagram, got {:?}", other),
    }
}

fn open_request_1(protocol: u8) -> Vec<u8> {
    let mut ocr1 = vec![0x05];
    ocr1.extend_from_slice(&MAGIC);
    ocr1.push(protocol);
    ocr1.extend_from_slice(&[0u8; 10]);
    ocr1
}

#[test]
fn server_test_extract_open_connection_protocol() {
    let mut data = vec![0x05];
    data.extend_from_slice(&MAGIC);
    data.push(11);
    data.extend_from_slice(&[0u8; 8]);

    assert_eq!(RakNetServer::extract_open_connection_protocol(&data), Some(11));
}

#[test]
fn mod_test_extract_open_connection_protocol() {
    let mut data = vec![0x05];
    data.extend_from_slice(&MAGIC);
    data.push(11);
    data.extend_from_slice(&[0u8; 8]);

    assert_eq!(RakNetServer::extract_open_connection_protocol(&data), Some(11));
    assert_eq!(RakNetServer::extract_open_connection_protocol(&data[..17]), None);
}

#[test]
fn server_test_sync_client_version_updates_runtime() {
    let mut server = RakNetServer::new(RakNetConfig::default());

    server.sync_client_version(11);

    assert_eq!(server.effective_protocol_version(), 11);
    assert_eq!(server.effective_version(), resolve_version(&VersionFallback::new(), 11));
}

#[test]
fn mod_test_sync_client_version_updates_runtime() {
    let mut server = RakNetServer::new(RakNetConfig::default());
    assert_eq!(server.effective_protocol_version(), 924);
    assert_eq!(server.effective_version(), "1.26.0");

    server.sync_client_version(11);

    assert_eq!(server.effective_protocol_version(), 11);
    assert_eq!(server.effective_version(), resolve_version(&VersionFallback::new(), 11));
    assert_eq!(server.effective_version(), "1.26.21");
}

#[test]
fn test_open_connection_reply_2_is_well_formed() {
    let mut server = RakNetServer::new(RakNetConfig::default());
    let server_port: u16 = 19132;
    let client_ip = [127u8, 0, 0, 1];
    let client_port: u16 = 50123;
    let client = peer(client_ip, client_port);
    let now = clock(1_700_000_000_000);
    let magic = MAGIC;

    // OPEN_CONNECTION_REQUEST_1
    let out = server.handle_packet(&open_request_1(11), &client, &now).unwrap();
    assert_eq!(out.len(), 1);
    let buf = datagram(&out[0]);
    assert!(buf.len() >= 28, "REPLY_1 too short");
    assert_eq!(buf[0], 0x06, "expected OPEN_CONNECTION_REPLY_1");
    assert_eq!(&buf[1..17], &magic, "REPLY_1 magic mismatch");

    // OPEN_CONNECTION_REQUEST_2
    let mut ocr2 = vec![0x07];
    ocr2.extend_from_slice(&magic);
    ocr2.extend_from_slice(&[0x04, 127, 0, 0, 1]);
    ocr2.extend_from_slice(&server_port.to_be_bytes());
    ocr2.extend_from_slice(&1464u16.to_be_bytes());
    ocr2.extend_from_slice(&0xDEADBEEFCAFEBABEu64.to_be_bytes());
    let out = server.handle_packet(&ocr2, &client, &now).unwrap();
    assert_eq!(out.len(), 1);
    let buf = datagram(&out[0]);
    assert!(buf.len() >= 35, "REPLY_2 too short");
    assert_eq!(buf[0], 0x08, "expected OPEN_CONNECTION_REPLY_2");
    assert_eq!(&buf[1..17], &magic, "REPLY_2 magic mismatch");
    assert_eq!(&buf[17..25], &0x1234567812345678u64.to_be_bytes(), "REPLY_2 server GUID mismatch");
    assert_eq!(buf[25], 0x04, "REPLY_2 address type");
    assert_eq!(&buf[26..30], &client_ip, "REPLY_2 client IP mismatch");
    assert_eq!(&buf[30..32], &client_port.to_be_bytes(), "REPLY_2 client port mismatch");
    assert_eq!(&buf[32..34], &1492u16.to_be_bytes(), "REPLY_2 MTU mismatch");
    assert_eq!(buf[34], 0, "REPLY_2 security flag");

    // CONNECTION_REQUEST -> CONNECTION_REQUEST_ACCEPTED
    let mut cr = vec![0x09];
    cr.extend_from_slice(&0xDEADBEEFCAFEBABEu64.to_be_bytes());
    cr.extend_from_slice(&12345u64.to_be_bytes());
    let out = server.handle_packet(&cr, &client, &now).unwrap();
    assert_eq!(out.len(), 1);
    let buf = datagram(&out[0]);
    assert!(buf.len() >= 90, "ACCEPTED too short");
    assert_eq!(buf[0], 0x10, "expected CONNECTION_REQUEST_ACCEPTED");
}

#[test]
fn reply_2_writes_an_ipv6_peer_in_full() {
    let server = RakNetServer::new(RakNetConfig::default());
    let mut octets = [0u8; 16];
    octets[15] = 1;
    let client = PeerAddr { text: "[::1]:4000".to_string(), ipv4: None, ipv6: Some(octets), port: 4000 };
    let mut ocr2 = vec![0x07];
    ocr2.extend_from_slice(&MAGIC);
    ocr2.extend_from_slice(&[0u8; 2]);
    let reply = server.handle_open_connection_request_2(&ocr2, &client).unwrap();
    assert_eq!(reply.len(), 1 + 16 + 8 + 1 + 16 + 2 + 2 + 1);
    assert_eq!(reply[25], 0x06);
    assert_eq!(&reply[26..42], &octets);
    assert_eq!(&reply[42..44], &4000u16.to_be_bytes());
    assert!(server.handle_open_connection_request_2(&ocr2[..18], &client).is_err());
}

#[test]
fn open_request_1_makes_a_session_with_the_raknet_protocol() {
    let mut server = RakNetServer::new(RakNetConfig::default());
    let client = peer([10, 0, 0, 2], 40000);
    server.handle_packet(&open_request_1(11), &client, &clock(0)).unwrap();
    assert_eq!(server.connection_count(), 1);
    let session = server.get_connection("10.0.0.2:40000").expect("session made");
    assert_eq!(session.raknet_protocol, 11);
    assert!(!session.connected);
    assert!(server.handle_packet(&open_request_1(11)[..16], &client, &clock(0)).is_err());
}

#[test]
fn unconnected_ping_answers_with_pong_and_motd() {
    let mut server = RakNetServer::new(RakNetConfig::default());
    let client = peer([10, 0, 0, 3], 40001);
    let mut ping = vec![0x01];
    ping.extend_from_slice(&7u64.to_be_bytes());
    ping.extend_from_slice(&MAGIC);
    ping.extend_from_slice(&[0u8; 8]);
    let out = server.handle_packet(&ping, &client, &clock(0)).unwrap();
    let pong = datagram(&out[0]);
    assert_eq!(pong[0], 0x1C);
    assert_eq!(&pong[1..9], &7u64.to_be_bytes());
    assert_eq!(&pong[9..17], &0x1234567812345678u64.to_be_bytes());
    assert_eq!(&pong[17..33], &MAGIC);
    let len = u16::from_be_bytes([pong[33], pong[34]]) as usize;
    let motd = std::str::from_utf8(&pong[35..]).unwrap();
    assert_eq!(len, motd.len());
    assert_eq!(
        motd,
        format!(
            "MCPE;Skin acquisition software!!;924;1.26.0;0;100;{};SkinGetBE;Creative;1;19132;19132;",
            0x1234567812345678u64
        )
    );
    assert!(server.handle_packet(&ping[..24], &client, &clock(0)).is_err());
}

#[test]
fn empty_and_unknown_datagrams() {
    let mut server = RakNetServer::new(RakNetConfig::default());
    let client = peer([10, 0, 0, 4], 40002);
    assert!(server.handle_packet(&[], &client, &clock(0)).is_err());
    let out = server.handle_packet(&[0x42, 1, 2], &client, &clock(0)).unwrap();
    assert!(out.is_empty());
    assert_eq!(server.connection_count(), 0);
}

#[test]
fn send_frame_single_datagram_parses_back() {
    let mut server = RakNetServer::new(RakNetConfig::default());
    let client = peer([10, 0, 0, 5], 40003);
    let payload: Vec<u8> = (0u8..100).collect();
    let datagrams = server.send_frame(&payload, 3, &client, 0);
    assert_eq!(datagrams.len(), 1);
    let set = RakNetProtocol::parse_frame_set(&datagrams[0]).unwrap();
    assert_eq!(set.id, 0x84);
    assert_eq!(set.seq, 1);
    assert_eq!(set.frames.len(), 1);
    assert_eq!(set.frames[0].payload, payload);
    assert_eq!(set.frames[0].reliability, 3);
    assert!(!set.frames[0].is_split);
    let session = server.get_connection("10.0.0.5:40003").unwrap();
    assert!(session.connected);
    assert_eq!(session.packet_seq, 2);
    assert_eq!(session.pending_messages.len(), 1);

    // an acknowledgement of sequence 1 clears the pending frame
    let ack = [0xC0, 0x00, 0x01, 0x01, 0x01, 0x00, 0x00, 0x01, 0x00, 0x00];
    let out = server.handle_packet(&ack, &client, &clock(1)).unwrap();
    assert!(out.is_empty());
    assert_eq!(server.get_connection("10.0.0.5:40003").unwrap().pending_messages.len(), 0);
}

#[test]
fn send_frame_splits_large_payloads_and_nack_resends() {
    let mut server = RakNetServer::new(RakNetConfig::default());
    let client = peer([10, 0, 0, 6], 40004);
    let payload: Vec<u8> = (0..4000u32).map(|i| (i % 251) as u8).collect();
    let datagrams = server.send_frame(&payload, 3, &client, 0);
    assert!(datagrams.len() >= 3);
    let count = datagrams.len() as u32;
    let split_id = [datagrams[0][18], datagrams[0][19]];
    let mut joined = Vec::new();
    for (k, d) in datagrams.iter().enumerate() {
        let k = k as u32;
        assert!(d.len() <= 1492);
        // header: id, sequence, flags (reliable ordered, split), length in bits
        assert_eq!(d[0], 0x84);
        assert_eq!(&d[1..4], &(1 + k).to_le_bytes()[..3]);
        assert_eq!(d[4], (3 << 5) | 0x10);
        // the length counts the chunk after the split header
        let bits = u16::from_be_bytes([d[5], d[6]]) as usize;
        assert_eq!(bits, (d.len() - 24) * 8);
        assert_eq!(&d[7..10], &k.to_le_bytes()[..3]);
        assert_eq!(&d[10..13], &k.to_le_bytes()[..3]);
        assert_eq!(d[13], 0);
        // split metadata, big-endian, then the chunk
        assert_eq!(&d[14..18], &count.to_be_bytes());
        assert_eq!(&d[18..20], &split_id);
        assert_eq!(&d[20..24], &k.to_be_bytes());
        joined.extend_from_slice(&d[24..]);
        // and the datagram parses back to that fragment
        let set = RakNetProtocol::parse_frame_set(d).unwrap();
        assert_eq!(set.frames.len(), 1);
        let f = &set.frames[0];
        assert!(f.is_split);
        assert_eq!(f.reliability, 3);
        assert_eq!(f.payload, d[24..].to_vec());
        assert_eq!(f.split_count, Some(count));
        assert_eq!(f.split_id, Some(u16::from_be_bytes(split_id)));
        assert_eq!(f.split_index, Some(k));
        assert_eq!(f.reliable_seq, Some(k));
        assert_eq!(f.order_index, Some(k));
    }
    assert_eq!(joined, payload);
    let session = server.get_connection("10.0.0.6:40004").unwrap();
    assert_eq!(session.packet_seq, 1 + count);
    assert_eq!(session.reliable_seq, count);
    assert_eq!(session.order_index, count);
    assert_eq!(session.pending_messages.len(), datagrams.len());

    // a NACK for sequence 2 sends that datagram again
    let nack = [0xA0, 0x00, 0x01, 0x01, 0x02, 0x00, 0x00, 0x02, 0x00, 0x00];
    let out = server.handle_packet(&nack, &client, &clock(1)).unwrap();
    assert_eq!(out.len(), 1);
    assert_eq!(datagram(&out[0]), datagrams[1]);
}

#[test]
fn framed_connected_ping_is_answered_and_acknowledged() {
    let mut sender = RakNetServer::new(RakNetConfig::default());
    let mut server = RakNetServer::new(RakNetConfig::default());
    let client = peer([10, 0, 0, 7], 40005);
    let server_addr = peer([10, 0, 0, 1], 19132);
    server.handle_packet(&open_request_1(11), &client, &clock(0)).unwrap();

    let mut ping = vec![0x00];
    ping.extend_from_slice(&99u64.to_be_bytes());
    let frames = sender.send_frame(&ping, 0, &server_addr, 0);
    assert_eq!(frames.len(), 1);
    let out = server.handle_packet(&frames[0], &client, &clock(5)).unwrap();
    assert_eq!(out.len(), 2);
    match &out[0] {
        Outgoing::Frame(p, rel) => {
            assert_eq!(*rel, 0);
            let mut expected = vec![0x03];
            expected.extend_from_slice(&99u64.to_be_bytes());
            expected.extend_from_slice(&0x1234567812345678u64.to_be_bytes());
            assert_eq!(p, &expected);
        }
        other => panic!("expected a pong frame, got {:?}", other),
    }
    assert_eq!(datagram(&out[1]), vec![0xC0, 0x00, 0x01, 0x01, 0x01, 0x00, 0x00, 0x01, 0x00, 0x00]);
    assert!(server.get_connection("10.0.0.7:40005").unwrap().connected);
}

#[test]
fn framed_disconnect_removes_the_session() {
    let mut sender = RakNetServer::new(RakNetConfig::default());
    let mut server = RakNetServer::new(RakNetConfig::default());
    let client = peer([10, 0, 0, 8], 40006);
    let server_addr = peer([10, 0, 0, 1], 19132);
    server.handle_packet(&open_request_1(11), &client, &clock(0)).unwrap();
    assert_eq!(server.connection_count(), 1);
    let frames = sender.send_frame(&[0x15], 0, &server_addr, 0);
    let out = server.handle_packet(&frames[0], &client, &clock(1)).unwrap();
    assert_eq!(out.len(), 1);
    assert_eq!(server.connection_count(), 0);
    assert!(server.get_connection("10.0.0.8:40006").is_none());
}

#[test]
fn frames_from_unknown_peers_are_ignored() {
    let mut sender = RakNetServer::new(RakNetConfig::default());
    let mut server = RakNetServer::new(RakNetConfig::default());
    let frames = sender.send_frame(&[0x15], 0, &peer([10, 0, 0, 1], 19132), 0);
    let out = server.handle_packet(&frames[0], &peer([10, 0, 0, 9], 1), &clock(1)).unwrap();
    assert!(out.is_empty());
    assert_eq!(server.connection_count(), 0);
}

#[test]
fn remove_connection_and_snapshot() {
    let mut server = RakNetServer::new(RakNetConfig::default());
    server.handle_packet(&open_request_1(11), &peer([10, 0, 0, 10], 2), &clock(0)).unwrap();
    server.handle_packet(&open_request_1(11), &peer([10, 0, 0, 11], 3), &clock(0)).unwrap();
    assert_eq!(server.connection_count(), 2);
    assert_eq!(server.active_connection_count(), 0);
    let snap = server.snapshot();
    assert_eq!(snap.sessions.len(), 2);
    server.remove_connection("10.0.0.10:2", true);
    assert_eq!(server.connection_count(), 1);
    assert!(server.get_connection("10.0.0.11:3").is_some());
}

fn pong_time(o: &Outgoing) -> u64 {
    match o {
        Outgoing::Frame(p, 0) if p.len() == 17 && p[0] == 0x03 => {
            u64::from_be_bytes([p[1], p[2], p[3], p[4], p[5], p[6], p[7], p[8]])
        }
        other => panic!("expected a pong frame, got {:?}", other),
    }
}

/// A reliable ordered frame (reliability 3, channel 0) carrying a connected ping.
fn ordered_ping_frame(reliable: u32, order: u32, time: u64) -> Vec<u8> {
    let mut ping = vec![0x00];
    ping.extend_from_slice(&time.to_be_bytes());
    let mut f = vec![3 << 5];
    f.extend_from_slice(&((ping.len() * 8) as u16).to_be_bytes());
    f.extend_from_slice(&reliable.to_le_bytes()[..3]);
    f.extend_from_slice(&order.to_le_bytes()[..3]);
    f.push(0);
    f.extend_from_slice(&ping);
    f
}

fn frame_set(seq: u32, frames: &[Vec<u8>]) -> Vec<u8> {
    let mut d = vec![0x84];
    d.extend_from_slice(&seq.to_le_bytes()[..3]);
    for f in frames {
        d.extend_from_slice(f);
    }
    d
}

#[test]
fn ordered_frames_are_delivered_in_order() {
    let mut server = RakNetServer::new(RakNetConfig::default());
    let client = peer([10, 0, 0, 12], 40007);
    server.handle_packet(&open_request_1(11), &client, &clock(0)).unwrap();

    // indexes 0 and 2 arrive together: 0 is delivered, 2 waits for 1
    let first = frame_set(0, &[ordered_ping_frame(0, 0, 100), ordered_ping_frame(2, 2, 102)]);
    let out = server.handle_packet(&first, &client, &clock(1)).unwrap();
    assert_eq!(out.len(), 2);
    assert_eq!(pong_time(&out[0]), 100);
    assert!(matches!(out[1], Outgoing::Datagram(_)));

    // index 1 arrives: 1 and then 2 are delivered
    let second = frame_set(1, &[ordered_ping_frame(1, 1, 101)]);
    let out = server.handle_packet(&second, &client, &clock(2)).unwrap();
    assert_eq!(out.len(), 3);
    assert_eq!(pong_time(&out[0]), 101);
    assert_eq!(pong_time(&out[1]), 102);
    assert_eq!(datagram(&out[2]), vec![0xC0, 0x00, 0x01, 0x01, 0x01, 0x00, 0x00, 0x01, 0x00, 0x00]);
}

#[test]
fn acknowledging_twice_changes_nothing_more() {
    let mut server = RakNetServer::new(RakNetConfig::default());
    let client = peer([10, 0, 0, 13], 40008);
    server.send_frame(&[1, 2, 3], 3, &client, 0);
    server.send_frame(&[4, 5, 6], 3, &client, 0);
    let ack = [0xC0, 0x00, 0x01, 0x01, 0x01, 0x00, 0x00, 0x01, 0x00, 0x00];
    server.handle_packet(&ack, &client, &clock(50)).unwrap();
    let after_once = server.get_connection("10.0.0.13:40008").unwrap();
    assert_eq!(after_once.pending_messages.len(), 1);
    let rtt_once = after_once.smoothed_rtt_ns;
    let window_once = after_once.congestion_window_bytes;
    assert_eq!(rtt_once, Some(50_000_000));
    server.handle_packet(&ack, &client, &clock(90)).unwrap();
    let after_twice = server.get_connection("10.0.0.13:40008").unwrap();
    assert_eq!(after_twice.pending_messages.len(), 1);
    assert_eq!(after_twice.smoothed_rtt_ns, rtt_once);
    assert_eq!(after_twice.congestion_window_bytes, window_once);
}

#[test]
fn split_send_is_reassembled_by_the_receiver() {
    let mut sender = RakNetServer::new(RakNetConfig::default());
    let mut server = RakNetServer::new(RakNetConfig::default());
    let client = peer([10, 0, 0, 9], 40007);
    let server_addr = peer([10, 0, 0, 1], 19132);
    server.handle_packet(&open_request_1(11), &client, &clock(0)).unwrap();
    assert_eq!(server.connection_count(), 1);

    // a disconnection notification padded to 3000 bytes goes out in several fragments;
    // it takes effect only once the receiver has joined them all
    let mut note = vec![0x15];
    note.resize(3000, 0xAB);
    let frames = sender.send_frame(&note, 2, &server_addr, 0);
    assert!(frames.len() >= 3);
    let last = frames.len() - 1;
    for (k, f) in frames.iter().enumerate() {
        server.handle_packet(f, &client, &clock(1 + k as u64)).unwrap();
        if k < last {
            assert_eq!(server.connection_count(), 1);
        }
    }
    assert_eq!(server.connection_count(), 0);
}

#[test]
fn hand_built_single_frame_datagrams_parse_back() {
    for r in 0u8..=7 {
        let rel = matches!(r, 2 | 3 | 4 | 6 | 7);
        let ord = matches!(r, 1 | 3 | 4 | 7);
        let p: Vec<u8> = (0..50u8).collect();
        let mut d = vec![0x84];
        d.extend_from_slice(&0x010203u32.to_le_bytes()[..3]);
        d.push(r << 5);
        d.extend_from_slice(&((p.len() * 8) as u16).to_be_bytes());
        if rel {
            d.extend_from_slice(&0x0A0B0Cu32.to_le_bytes()[..3]);
        }
        if ord {
            d.extend_from_slice(&0x112233u32.to_le_bytes()[..3]);
            d.push(0);
        }
        d.extend_from_slice(&p);
        let fs = RakNetProtocol::parse_frame_set(&d).unwrap();
        assert_eq!((fs.id, fs.seq, fs.frames.len()), (0x84, 0x010203, 1));
        let f = &fs.frames[0];
        assert_eq!(f.reliability, r);
        assert!(!f.is_split);
        assert_eq!(f.payload, p);
        assert_eq!(f.reliable_seq, if rel { Some(0x0A0B0C) } else { None });
        assert_eq!(f.order_index, if ord { Some(0x112233) } else { None });
        assert_eq!(f.order_channel, if ord { Some(0) } else { None });
        assert_eq!((f.split_count, f.split_id, f.split_index), (None, None, None));
    }
}
