use skingetbe::bedrock::skin::{
    capture_stem, encode_png_rgba, next_available_stem, sanitize_component, ExtractedSkin,
    SkinExtractor,
};
use skingetbe::Error;

#[test]
fn test_extract_skin_64x64() {
    let data = vec![0u8; 64 * 64 * 4];
    let skin = SkinExtractor::extract_skin(&data).unwrap();
    assert_eq!(skin.width, 64);
    assert_eq!(skin.height, 64);
}

#[test]
fn test_extract_skin_128x64() {
    let data = vec![0u8; 128 * 64 * 4];
    let skin = SkinExtractor::extract_skin(&data).unwrap();
    assert_eq!(skin.width, 128);
    assert_eq!(skin.height, 64);
}

#[test]
fn test_invalid_data_size() {
    let data = vec![0u8; 100];
    assert!(SkinExtractor::extract_skin(&data).is_err());
}

#[test]
fn extract_skin_refuses_partial_pixels() {
    let data = vec![0u8; 64 * 32 * 4 + 1];
    match SkinExtractor::extract_skin(&data) {
        Err(Error::InvalidData(m)) => assert_eq!(m, "Skin data is not whole RGBA pixels: 8193 bytes"),
        other => panic!("unexpected {:?}", other),
    }
}

#[test]
fn extract_skin_infers_height_for_odd_sizes() {
    let data = vec![0u8; 64 * 40 * 4];
    let skin = SkinExtractor::extract_skin(&data).unwrap();
    assert_eq!((skin.width, skin.height), (64, 40));
    assert_eq!(skin.data.len(), data.len());
}

#[test]
fn extracted_skin_checks_size() {
    assert!(ExtractedSkin::new(64, 64, vec![0u8; 64 * 64 * 4]).is_ok());
    match ExtractedSkin::new(64, 64, vec![0u8; 10]) {
        Err(Error::InvalidData(m)) => {
            assert_eq!(m, "Skin data size mismatch: expected 16384, got 10")
        }
        other => panic!("unexpected {:?}", other),
    }
}

#[test]
fn sanitize_replaces_path_characters() {
    assert_eq!(sanitize_component("a/b\\c:d*e?f\"g<h>i|j"), "a_b_c_d_e_f_g_h_i_j");
    assert_eq!(sanitize_component("Steve"), "Steve");
}

#[test]
fn numbered_stems_share_suffix() {
    let mut existing: Vec<String> = Vec::new();
    assert_eq!(next_available_stem(&existing, "Steve_Skin"), "Steve_Skin");
    existing.push("Steve_Skin.png".to_string());
    existing.push("Steve_Skin.json".to_string());
    assert_eq!(next_available_stem(&existing, "Steve_Skin"), "Steve_Skin_1");
    existing.push("Steve_Skin_1.json".to_string());
    assert_eq!(next_available_stem(&existing, "Steve_Skin"), "Steve_Skin_2");
}

#[test]
fn capture_stem_follows_savemode() {
    let existing = vec!["Steve_Skin.png".to_string()];
    assert_eq!(capture_stem(&existing, "Steve", "Skin", 0), None);
    assert_eq!(capture_stem(&existing, "Steve", "Skin", 1), Some("Steve_Skin".to_string()));
    assert_eq!(capture_stem(&existing, "Steve", "Skin", 2), Some("Steve_Skin_1".to_string()));
    assert_eq!(capture_stem(&Vec::new(), "St/eve", "Sk:in", 2), Some("St_eve_Sk_in".to_string()));
}

#[test]
fn png_encoding_has_signature_and_chunks() {
    let rgba = vec![255u8; 2 * 2 * 4];
    let png = encode_png_rgba(&rgba, 2, 2).unwrap();
    assert_eq!(&png[0..8], &[137, 80, 78, 71, 13, 10, 26, 10]);
    assert_eq!(&png[8..12], &[0, 0, 0, 13]);
    assert_eq!(&png[12..16], b"IHDR");
    assert_eq!(&png[16..20], &2u32.to_be_bytes());
    assert_eq!(&png[20..24], &2u32.to_be_bytes());
    assert_eq!(&png[24..29], &[8, 6, 0, 0, 0]);
    let crc = crc32fast::hash(&png[12..29]);
    assert_eq!(&png[29..33], &crc.to_be_bytes());
    assert_eq!(&png[png.len() - 12..], &[0, 0, 0, 0, 73, 69, 78, 68, 0xAE, 0x42, 0x60, 0x82]);
    // The IDAT stream inflates to the filtered scanlines.
    let idat_len = u32::from_be_bytes([png[33], png[34], png[35], png[36]]) as usize;
    assert_eq!(&png[37..41], b"IDAT");
    let mut dec = flate2::read::ZlibDecoder::new(&png[41..41 + idat_len]);
    let mut raw = Vec::new();
    std::io::Read::read_to_end(&mut dec, &mut raw).unwrap();
    let mut expected = vec![0u8];
    expected.extend_from_slice(&[255u8; 8]);
    expected.push(0);
    expected.extend_from_slice(&[255u8; 8]);
    assert_eq!(raw, expected);
}

#[test]
fn png_encoding_rejects_wrong_size() {
    assert!(matches!(encode_png_rgba(&[0u8; 5], 2, 2), Err(Error::InvalidData(_))));
}
