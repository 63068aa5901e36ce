use skingetbe::util::stun::StunClient;

fn response_with(attrs: &[u8]) -> Vec<u8> {
    let mut p = vec![0x01, 0x01, 0x00, attrs.len() as u8, 0x21, 0x12, 0xa4, 0x42];
    p.extend_from_slice(&[7u8; 12]);
    p.extend_from_slice(attrs);
    p
}

#[test]
fn test_stun_request_structure() {
    let client = StunClient::new(5000);
    let request = client.build_stun_request();

    // Check packet structure
    assert!(request.len() >= 20);
    assert_eq!(&request[0..2], &[0x00, 0x01]); // Message type
    assert_eq!(&request[4..8], &[0x21, 0x12, 0xa4, 0x42]); // Magic cookie
}

#[test]
fn stun_request_carries_transaction_id() {
    let client = StunClient::new(100);
    assert_eq!(client.timeout_ms, 100);
    let id: Vec<u8> = (1u8..=12).collect();
    let request = client.build_stun_request_with_id(&id);
    assert_eq!(request.len(), 20);
    assert_eq!(&request[0..8], &[0x00, 0x01, 0x00, 0x00, 0x21, 0x12, 0xa4, 0x42]);
    assert_eq!(&request[8..], &id[..]);
}

#[test]
fn stun_parses_xor_mapped_address() {
    let client = StunClient::new(5000);
    // XOR-MAPPED-ADDRESS, IPv4, port ignored, 203.0.113.5 xor magic cookie
    let attr = [
        0x00, 0x20, 0x00, 0x08, 0x00, 0x01, 0x00, 0x00, 203 ^ 0x21, 0 ^ 0x12, 113 ^ 0xa4, 5 ^ 0x42,
    ];
    assert_eq!(client.parse_stun_response(&response_with(&attr)), Some("203.0.113.5".to_string()));
}

#[test]
fn stun_parses_mapped_address_after_other_attribute() {
    let client = StunClient::new(5000);
    let mut attrs = vec![0x80, 0x22, 0x00, 0x03, b'a', b'b', b'c', 0x00];
    attrs.extend_from_slice(&[0x00, 0x01, 0x00, 0x08, 0x00, 0x01, 0x12, 0x34, 10, 0, 0, 7]);
    assert_eq!(client.parse_stun_response(&response_with(&attrs)), Some("10.0.0.7".to_string()));
}

#[test]
fn stun_rejects_short_bad_cookie_and_ipv6() {
    let client = StunClient::new(5000);
    assert_eq!(client.parse_stun_response(&[0u8; 19]), None);
    let mut bad = response_with(&[0x00, 0x01, 0x00, 0x08, 0x00, 0x01, 0, 0, 1, 2, 3, 4]);
    bad[4] = 0;
    assert_eq!(client.parse_stun_response(&bad), None);
    let ipv6 = response_with(&[0x00, 0x01, 0x00, 0x08, 0x00, 0x02, 0, 0, 1, 2, 3, 4]);
    assert_eq!(client.parse_stun_response(&ipv6), None);
    let truncated = response_with(&[0x00, 0x01, 0x00, 0x10, 0x00, 0x01, 0, 0, 1, 2, 3, 4]);
    assert_eq!(client.parse_stun_response(&truncated), None);
}
