use skingetbe::bedrock::batch::{compress_batch, decompress_batch, parse_batch};
use skingetbe::util::Buffer;

#[test]
fn test_var_int() {
    let data = vec![0x00];
    let mut buf = Buffer::from(&data);
    let val = buf.read_var_int().unwrap();
    assert_eq!(val, 0);
    assert_eq!(buf.position(), 1);

    let data = vec![0x80, 0x01];
    let mut buf = Buffer::from(&data);
    let val = buf.read_var_int().unwrap();
    assert_eq!(val, 128);
    assert_eq!(buf.position(), 2);
}

#[test]
fn test_parse_batch_two_packets() {
    let mut buf = Buffer::new();
    let p1 = vec![0x01, 0x02, 0x03];
    let p2 = vec![0xAA, 0xBB];

    buf.write_var_int(p1.len() as u32).unwrap();
    buf.write_bytes(&p1).unwrap();
    buf.write_var_int(p2.len() as u32).unwrap();
    buf.write_bytes(&p2).unwrap();

    let data = buf.to_vec();
    let packets = parse_batch(&data).unwrap();
    assert_eq!(packets.len(), 2);
    assert_eq!(packets[0], p1);
    assert_eq!(packets[1], p2);
}

#[test]
fn test_decompress_compress_cycle() {
    let mut b = Buffer::new();
    let p1 = vec![0x11, 0x22, 0x33];
    let p2 = vec![0x44, 0x55];

    b.write_var_int(p1.len() as u32).unwrap();
    b.write_bytes(&p1).unwrap();
    b.write_var_int(p2.len() as u32).unwrap();
    b.write_bytes(&p2).unwrap();

    let original = b.to_vec();
    let compressed = compress_batch(&original).unwrap();
    let decompressed = decompress_batch(&compressed, true).unwrap();
    assert_eq!(decompressed, original);

    let no_neg = decompress_batch(&compressed, false).unwrap();
    assert_eq!(no_neg, compressed);
}

#[test]
fn test_decompress_algo_00_requires_raw_deflate_payload() {
    let data = vec![0x00, 0xDE, 0xAD, 0xBE, 0xEF];
    let out = decompress_batch(&data, true);
    assert!(out.is_err());
}

#[test]
fn test_decompress_algo_ff_uncompressed() {
    let data = vec![0xFF, 0x01, 0x02, 0x03];
    let out = decompress_batch(&data, true).unwrap();
    assert_eq!(out, vec![0x01, 0x02, 0x03]);
}

#[test]
fn empty_batch_body_is_rejected() {
    assert!(decompress_batch(&[], true).is_err());
    assert!(decompress_batch(&[], false).is_err());
}

#[test]
fn compressed_batch_starts_with_algorithm_zero() {
    let compressed = compress_batch(&[1, 2, 3, 4]).unwrap();
    assert_eq!(compressed[0], 0x00);
    assert_ne!(&compressed[1..], &[1, 2, 3, 4]);
}

#[test]
fn batch_stops_at_truncated_packet() {
    // A packet announcing 5 bytes with only 2 present ends the list.
    let data = vec![0x01, 0xAA, 0x05, 0x01, 0x02];
    let packets = parse_batch(&data).unwrap();
    assert_eq!(packets, vec![vec![0xAA]]);
}

#[test]
fn encoded_batch_reads_back() {
    let packets = vec![vec![9u8; 200], vec![], vec![7u8]];
    let mut b = Buffer::new();
    for p in &packets {
        b.write_var_int(p.len() as u32).unwrap();
        b.write_bytes(p).unwrap();
    }
    let back = parse_batch(&b.to_vec()).unwrap();
    assert_eq!(back, packets);
}

#[test]
fn parse_batch_drops_a_cut_tail() {
    // cut inside the body of the second packet
    let data = [0x03, 0x01, 0x02, 0x03, 0x05, 0xAA];
    assert_eq!(parse_batch(&data).unwrap(), vec![vec![0x01, 0x02, 0x03]]);
    // cut inside the length of the second packet (0x80 announces another byte)
    let data = [0x01, 0x09, 0x80];
    assert_eq!(parse_batch(&data).unwrap(), vec![vec![0x09]]);
}
