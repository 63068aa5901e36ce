//! Skin images: size checks, dimension detection, PNG encoding and capture file names.
use crate::bedrock::compress::{crc32, crc32_of, deflate_zlib, zlib_deflated};
use crate::error::{Error, Result};
use crate::util::buffer::u32_be_bytes;
use crate::util::text::{concat_str, decimal, push_char, push_decimal, str_chars};
use vstd::prelude::*;

verus! {

/// Extracted skin information
#[derive(Debug, Clone)]
pub struct ExtractedSkin {
    pub width: u32,
    pub height: u32,
    pub data: Vec<u8>,
}

/// The message that refuses pixel data of the wrong size.
pub open spec fn size_mismatch_message(expected: nat, got: nat) -> Seq<char> {
    "Skin data size mismatch: expected "@ + decimal(expected) + ", got "@ + decimal(got)
}

impl ExtractedSkin {
    /// Create a new skin with RGBA data; the data must hold `width * height * 4` bytes.
    pub fn new(width: u32, height: u32, data: Vec<u8>) -> (r: Result<Self>)
        ensures
            data@.len() == width * height * 4 ==> (r matches Ok(s) && s.width == width && s.height
                == height && s.data@ == data@),
            data@.len() != width * height * 4 ==> (r matches Err(Error::InvalidData(m)) && m@
                == size_mismatch_message((width * height * 4) as nat, data@.len())),
    {
        let w = width as u128;
        let h = height as u128;
        assert(w * h <= 0xFFFF_FFFF * 0xFFFF_FFFF) by (nonlinear_arith)
            requires
                w <= 0xFFFF_FFFF,
                h <= 0xFFFF_FFFF,
        ;
        let expected = w * h * 4;
        if data.len() as u128 != expected {
            let mut msg = String::from_str("Skin data size mismatch: expected ");
            push_decimal(&mut msg, expected);
            msg.append(", got ");
            push_decimal(&mut msg, data.len() as u128);
            return Err(Error::InvalidData(msg));
        }
        Ok(ExtractedSkin { width, height, data })
    }
}

/// Skin data extractor
pub struct SkinExtractor;

/// The smallest skin accepted: 64 x 32 RGBA pixels.
pub const MIN_SKIN_BYTES: usize = 8192;

/// The dimensions of a skin of `pixels` RGBA pixels: the standard Minecraft sizes
/// (64x32, 64x64, 128x64, 128x128), otherwise 64 wide and as tall as the pixels allow
/// (64 when that is zero).
pub open spec fn skin_dimensions(pixels: nat) -> (u32, u32) {
    if pixels == 64 * 32 {
        (64, 32)
    } else if pixels == 64 * 64 {
        (64, 64)
    } else if pixels == 128 * 64 {
        (128, 64)
    } else if pixels == 128 * 128 {
        (128, 128)
    } else {
        let h = (pixels as u32) / 64;
        (64, if h == 0 {
            64
        } else {
            h
        })
    }
}

/// The standard Minecraft skin sizes: 64x32, 64x64, 128x64 and 128x128.
pub open spec fn is_standard_skin_size(width: nat, height: nat) -> bool {
    ||| width == 64 && height == 32
    ||| width == 64 && height == 64
    ||| width == 128 && height == 64
    ||| width == 128 && height == 128
}

/// Dimension detection recognises the standard sizes: a skin of a standard size has its
/// own width and height detected.
pub proof fn lemma_standard_sizes_detected(width: nat, height: nat)
    requires
        is_standard_skin_size(width, height),
    ensures
        skin_dimensions(width * height) == (width as u32, height as u32),
{
}

/// Detected dimensions always cover the pixels of a skin made of whole 64-pixel rows:
/// width times height is the pixel count, and a size that is not standard is 64 wide.
pub proof fn lemma_detected_dimensions_cover_pixels(pixels: nat)
    requires
        0 < pixels <= u32::MAX,
        pixels % 64 == 0,
    ensures
        ({
            let (w, h) = skin_dimensions(pixels);
            &&& (w as nat) * (h as nat) == pixels
            &&& is_standard_skin_size(w as nat, h as nat) || w == 64
        }),
{
    let h = (pixels as u32) / 64;
    assert(h as nat == pixels / 64);
    assert(64 * (pixels / 64) == pixels) by (nonlinear_arith)
        requires
            pixels % 64 == 0,
    ;
}

pub fn skin_dimensions_of(pixels: usize) -> (r: (u32, u32))
    ensures
        r == skin_dimensions(pixels as nat),
{
    if pixels == 64 * 32 {
        (64, 32)
    } else if pixels == 64 * 64 {
        (64, 64)
    } else if pixels == 128 * 64 {
        (128, 64)
    } else if pixels == 128 * 128 {
        (128, 128)
    } else {
        let h = (pixels as u32) / 64;
        (64, if h == 0 { 64 } else { h })
    }
}

impl SkinExtractor {
    /// Extract a skin from RGBA data of at least 64 x 32 whole pixels (four bytes each),
    /// detecting its dimensions.
    pub fn extract_skin(data: &[u8]) -> (r: Result<ExtractedSkin>)
        ensures
            data@.len() < MIN_SKIN_BYTES ==> (r matches Err(e) && e is InvalidData),
            data@.len() >= MIN_SKIN_BYTES && data@.len() % 4 != 0 ==> (r matches Err(e)
                && e is InvalidData),
            data@.len() >= MIN_SKIN_BYTES && data@.len() % 4 == 0 ==> (r matches Ok(s) && (
            s.width, s.height) == skin_dimensions(data@.len() / 4) && s.data@ == data@),
    {
        if data.len() < MIN_SKIN_BYTES {
            let mut msg = String::from_str("Skin data too small: ");
            push_decimal(&mut msg, data.len() as u128);
            msg.append(" bytes (minimum 8192)");
            return Err(Error::InvalidData(msg));
        }
        if data.len() % 4 != 0 {
            let mut msg = String::from_str("Skin data is not whole RGBA pixels: ");
            push_decimal(&mut msg, data.len() as u128);
            msg.append(" bytes");
            return Err(Error::InvalidData(msg));
        }
        let (width, height) = skin_dimensions_of(data.len() / 4);
        Ok(ExtractedSkin { width, height, data: vstd::slice::slice_to_vec(data) })
    }
}

/// A file name component with the characters `/ \ : * ? " < > |` replaced by `_`.
pub open spec fn sanitized(s: Seq<char>) -> Seq<char> {
    s.map_values(|c: char| sanitize_char(c))
}

pub open spec fn sanitize_char(c: char) -> char {
    if c == '/' || c == '\\' || c == ':' || c == '*' || c == '?' || c == '"' || c == '<' || c
        == '>' || c == '|' {
        '_'
    } else {
        c
    }
}

/// Replace the characters that cannot stand in a file name with `_`.
pub fn sanitize_component(value: &str) -> (r: String)
    ensures
        r@ == sanitized(value@),
{
    let cs = str_chars(value);
    let mut out = String::new();
    let mut i: usize = 0;
    while i < cs.len()
        invariant
            i <= cs@.len(),
            cs@ == value@,
            out@ == sanitized(cs@.take(i as int)),
        decreases cs.len() - i,
    {
        let c = cs[i];
        let d = if c == '/' || c == '\\' || c == ':' || c == '*' || c == '?' || c == '"' || c == '<'
            || c == '>' || c == '|' {
            '_'
        } else {
            c
        };
        push_char(&mut out, d);
        proof {
            assert(sanitized(cs@.take(i + 1)) =~= sanitized(cs@.take(i as int)).push(d));
        }
        i = i + 1;
    }
    proof {
        assert(cs@.take(cs@.len() as int) =~= cs@);
    }
    out
}

/// The stem `base_k` of the k-th numbered capture.
pub open spec fn numbered_stem(base: Seq<char>, k: nat) -> Seq<char> {
    base + seq!['_'] + decimal(k)
}

/// A stem is taken when a `.png` or a `.json` file of that stem exists.
pub open spec fn stem_taken(existing: Seq<Seq<char>>, stem: Seq<char>) -> bool {
    existing.contains(stem + ".png"@) || existing.contains(stem + ".json"@)
}

/// The stem `next_available_stem` picks: the base name when it is free, otherwise the
/// first free numbered stem (counting from 1), and the stem numbered `u32::MAX` when
/// every number is taken.
pub open spec fn available_stem(existing: Seq<Seq<char>>, base: Seq<char>) -> Seq<char> {
    if !stem_taken(existing, base) {
        base
    } else if exists|k: nat| 1 <= k <= u32::MAX && !stem_taken(existing, numbered_stem(base, k)) {
        let k = choose|k: nat|
            1 <= k <= u32::MAX && !stem_taken(existing, numbered_stem(base, k)) && forall|j: nat|
                1 <= j < k ==> stem_taken(existing, #[trigger] numbered_stem(base, j));
        numbered_stem(base, k)
    } else {
        numbered_stem(base, u32::MAX as nat)
    }
}

proof fn lemma_first_free_number(existing: Seq<Seq<char>>, base: Seq<char>, k: nat)
    requires
        1 <= k <= u32::MAX,
        !stem_taken(existing, numbered_stem(base, k)),
    ensures
        exists|m: nat|
            1 <= m <= k && !stem_taken(existing, numbered_stem(base, m)) && forall|j: nat|
                1 <= j < m ==> stem_taken(existing, #[trigger] numbered_stem(base, j)),
    decreases k,
{
    if exists|j: nat| 1 <= j < k && !stem_taken(existing, #[trigger] numbered_stem(base, j)) {
        let j = choose|j: nat| 1 <= j < k && !stem_taken(existing, #[trigger] numbered_stem(base, j));
        lemma_first_free_number(existing, base, j);
    } else {
        assert(forall|j: nat| 1 <= j < k ==> stem_taken(existing, #[trigger] numbered_stem(base, j)));
    }
}

/// A numbered save never takes the name of an existing file: whenever some numbered stem
/// up to `u32::MAX` is free, the stem picked has neither a `.png` nor a `.json` file.
pub proof fn lemma_available_stem_is_free(existing: Seq<Seq<char>>, base: Seq<char>, k: nat)
    requires
        1 <= k <= u32::MAX,
        !stem_taken(existing, numbered_stem(base, k)),
    ensures
        !stem_taken(existing, available_stem(existing, base)),
{
    if stem_taken(existing, base) {
        lemma_first_free_number(existing, base, k);
    }
}

fn contains_name(existing: &Vec<String>, name: &String) -> (r: bool)
    ensures
        r == existing.deep_view().contains(name@),
{
    let mut i: usize = 0;
    while i < existing.len()
        invariant
            i <= existing@.len(),
            forall|j: int| 0 <= j < i ==> existing@[j]@ != name@,
        decreases existing.len() - i,
    {
        if existing[i] == *name {
            proof {
                assert(existing.deep_view()[i as int] == name@);
            }
            return true;
        }
        i = i + 1;
    }
    proof {
        if existing.deep_view().contains(name@) {
            let j = choose|j: int| 0 <= j < existing.deep_view().len() && existing.deep_view()[j] == name@;
            assert(existing@[j]@ == name@);
        }
    }
    false
}

fn is_taken(existing: &Vec<String>, stem: &String) -> (r: bool)
    ensures
        r == stem_taken(existing.deep_view(), stem@),
{
    let png = concat_str(stem.as_str(), ".png");
    let json = concat_str(stem.as_str(), ".json");
    contains_name(existing, &png) || contains_name(existing, &json)
}

/// The first free file stem for `base_name` among the file names in `existing`.
pub fn next_available_stem(existing: &Vec<String>, base_name: &str) -> (r: String)
    ensures
        r@ == available_stem(existing.deep_view(), base_name@),
{
    let base = String::from_str(base_name);
    if !is_taken(existing, &base) {
        return base;
    }
    let ghost ex = existing.deep_view();
    let mut count: u32 = 1;
    loop
        invariant
            1 <= count,
            ex == existing.deep_view(),
            base@ == base_name@,
            stem_taken(ex, base@),
            forall|j: nat| 1 <= j < count ==> stem_taken(ex, #[trigger] numbered_stem(base@, j)),
        decreases u32::MAX - count,
    {
        let mut stem = base.clone();
        push_char(&mut stem, '_');
        push_decimal(&mut stem, count as u128);
        proof {
            assert(stem@ == numbered_stem(base@, count as nat));
        }
        if !is_taken(existing, &stem) {
            proof {
                assert(forall|j: nat| 1 <= j < count as nat ==> stem_taken(ex, #[trigger] numbered_stem(base@, j)));
                let k = choose|k: nat|
                    1 <= k <= u32::MAX && !stem_taken(ex, numbered_stem(base@, k)) && forall|j: nat|
                        1 <= j < k ==> stem_taken(ex, #[trigger] numbered_stem(base@, j));
                assert(k == count) by {
                    if k < count {
                        assert(stem_taken(ex, numbered_stem(base@, k)));
                    } else if k > count {
                        assert(stem_taken(ex, numbered_stem(base@, count as nat)));
                    }
                }
            }
            return stem;
        }
        if count == u32::MAX {
            proof {
                assert(forall|k: nat| 1 <= k <= u32::MAX ==> stem_taken(ex, #[trigger] numbered_stem(base@, k)));
            }
            return stem;
        }
        count = count + 1;
    }
}

/// The file stem a login capture is saved under: none when saving is disabled
/// (`savemode` 0), `<player>_<skin>` (sanitized) when overwriting (1), and the first
/// free numbered stem otherwise.
pub open spec fn capture_stem_spec(
    existing: Seq<Seq<char>>,
    player: Seq<char>,
    skin_id: Seq<char>,
    savemode: u8,
) -> Option<Seq<char>> {
    let base = sanitized(player) + seq!['_'] + sanitized(skin_id);
    if savemode == 0 {
        None
    } else if savemode == 1 {
        Some(base)
    } else {
        Some(available_stem(existing, base))
    }
}

/// The file stem under which a login capture is saved (see `capture_stem_spec`).
pub fn capture_stem(existing: &Vec<String>, player_name: &str, skin_id: &str, savemode: u8) -> (r:
    Option<String>)
    ensures
        match capture_stem_spec(existing.deep_view(), player_name@, skin_id@, savemode) {
            Some(s) => r matches Some(x) && x@ == s,
            None => r is None,
        },
{
    if savemode == 0 {
        return None;
    }
    let safe_player = sanitize_component(player_name);
    let safe_skin = sanitize_component(skin_id);
    let mut base = safe_player;
    push_char(&mut base, '_');
    base.append(safe_skin.as_str());
    proof {
        assert(base@ == sanitized(player_name@) + seq!['_'] + sanitized(skin_id@));
    }
    if savemode == 1 {
        Some(base)
    } else {
        Some(next_available_stem(existing, base.as_str()))
    }
}

/// The raw PNG scanlines: each row of `width * 4` bytes preceded by filter byte 0.
pub open spec fn png_scanlines(rgba: Seq<u8>, row_bytes: nat, rows: nat) -> Seq<u8>
    decreases rows,
{
    if rows == 0 {
        Seq::empty()
    } else {
        png_scanlines(rgba, row_bytes, (rows - 1) as nat) + seq![0u8] + rgba.subrange(
            (rows - 1) * row_bytes,
            (rows * row_bytes) as int,
        )
    }
}

/// A PNG chunk: big-endian data length, the type, the data and the CRC-32 of type and data.
pub open spec fn png_chunk(chunk_type: Seq<u8>, data: Seq<u8>) -> Seq<u8> {
    u32_be_bytes(data.len() as u32) + chunk_type + data + u32_be_bytes(crc32(chunk_type + data))
}

pub open spec fn png_signature() -> Seq<u8> {
    seq![137u8, 80u8, 78u8, 71u8, 13u8, 10u8, 26u8, 10u8]
}

/// The IHDR data: width, height, bit depth 8, color type 6 (RGBA), default methods.
pub open spec fn png_ihdr(width: u32, height: u32) -> Seq<u8> {
    u32_be_bytes(width) + u32_be_bytes(height) + seq![8u8, 6u8, 0u8, 0u8, 0u8]
}

/// A PNG file of the given size whose single IDAT chunk holds `idat`: signature, IHDR,
/// IDAT and IEND.
pub open spec fn png_with_idat(width: u32, height: u32, idat: Seq<u8>) -> Seq<u8> {
    png_signature() + png_chunk(seq![73u8, 72u8, 68u8, 82u8], png_ihdr(width, height))
        + png_chunk(seq![73u8, 68u8, 65u8, 84u8], idat) + png_chunk(
        seq![73u8, 69u8, 78u8, 68u8],
        Seq::empty(),
    )
}

/// The PNG file for RGBA pixels: its IDAT holds the zlib stream (level 6) of the
/// scanlines (`None` when the zlib encoder fails).
pub open spec fn png_file(rgba: Seq<u8>, width: u32, height: u32) -> Option<Seq<u8>> {
    match zlib_deflated(png_scanlines(rgba, (width * 4) as nat, height as nat), 6) {
        Some(z) => Some(png_with_idat(width, height, z)),
        None => None,
    }
}

fn write_png_chunk(out: &mut Vec<u8>, chunk_type: &[u8], data: &[u8])
    requires
        chunk_type@.len() == 4,
    ensures
        final(out)@ == old(out)@ + png_chunk(chunk_type@, data@),
{
    let len = data.len() as u32;
    let lb = [((len >> 24u32) & 0xFF) as u8, ((len >> 16u32) & 0xFF) as u8, ((len >> 8u32) & 0xFF)
        as u8, (len & 0xFF) as u8];
    out.extend_from_slice(&lb);
    out.extend_from_slice(chunk_type);
    out.extend_from_slice(data);
    let mut td = vstd::slice::slice_to_vec(chunk_type);
    let mut dv = vstd::slice::slice_to_vec(data);
    td.append(&mut dv);
    let c = crc32_of(td.as_slice());
    let cb = [((c >> 24u32) & 0xFF) as u8, ((c >> 16u32) & 0xFF) as u8, ((c >> 8u32) & 0xFF) as u8, (c
        & 0xFF) as u8];
    out.extend_from_slice(&cb);
    proof {
        assert(lb@ == u32_be_bytes(len));
        assert(cb@ == u32_be_bytes(c));
        assert(final(out)@ =~= old(out)@ + png_chunk(chunk_type@, data@));
    }
}


/// Encode RGBA pixels (`width * height * 4` bytes) as a PNG file; it fails on pixels of
/// another size, and when the zlib encoder fails.
pub fn encode_png_rgba(rgba: &[u8], width: u32, height: u32) -> (r: Result<Vec<u8>>)
    ensures
        rgba@.len() != width * height * 4 ==> (r matches Err(Error::InvalidData(m)) && m@
            == size_mismatch_message((width * height * 4) as nat, rgba@.len())),
        rgba@.len() == width * height * 4 ==> match png_file(rgba@, width, height) {
            Some(p) => r matches Ok(png) && png@ == p,
            None => r matches Err(e) && e is IoError,
        },
{
    let w = width as u128;
    let h = height as u128;
    assert(w * h <= 0xFFFF_FFFF * 0xFFFF_FFFF) by (nonlinear_arith)
        requires
            w <= 0xFFFF_FFFF,
            h <= 0xFFFF_FFFF,
    ;
    let expected = w * h * 4;
    if rgba.len() as u128 != expected {
        let mut msg = String::from_str("Skin data size mismatch: expected ");
        push_decimal(&mut msg, expected);
        msg.append(", got ");
        push_decimal(&mut msg, rgba.len() as u128);
        return Err(Error::InvalidData(msg));
    }
    let ghost rb: nat = (width * 4) as nat;
    let row_bytes: usize = if height == 0 {
        0
    } else {
        assert(w * 4 <= w * h * 4) by (nonlinear_arith)
            requires
                h >= 1,
        ;
        width as usize * 4
    };
    assert(rb * height == w * h * 4) by (nonlinear_arith)
        requires
            rb == w * 4,
            w == width,
            h == height,
    ;
    let mut raw: Vec<u8> = Vec::new();
    let mut row: u32 = 0;
    while row < height
        invariant
            row <= height,
            height > 0 ==> row_bytes == rb,
            rb == width * 4,
            rgba@.len() == rb * height,
            rgba@.len() <= usize::MAX,
            raw@ == png_scanlines(rgba@, rb, row as nat),
        decreases height - row,
    {
        assert((row + 1) * rb <= height * rb) by (nonlinear_arith)
            requires
                row < height,
        ;
        assert(row * rb + rb == (row + 1) * rb) by (nonlinear_arith);
        assert(row * rb <= (row + 1) * rb) by (nonlinear_arith);
        let start: usize = row as usize * row_bytes;
        let end: usize = start + row_bytes;
        raw.push(0u8);
        let part = vstd::slice::slice_subrange(rgba, start, end);
        let mut pv = vstd::slice::slice_to_vec(part);
        raw.append(&mut pv);
        row = row + 1;
    }
    let compressed = match deflate_zlib(raw.as_slice(), 6) {
        Ok(c) => c,
        Err(e) => {
            return Err(Error::IoError(e));
        },
    };
    let mut png: Vec<u8> = Vec::new();
    let sig: [u8; 8] = [137, 80, 78, 71, 13, 10, 26, 10];
    png.extend_from_slice(&sig);
    let wb = [((width >> 24u32) & 0xFF) as u8, ((width >> 16u32) & 0xFF) as u8, ((width >> 8u32)
        & 0xFF) as u8, (width & 0xFF) as u8];
    let hb = [((height >> 24u32) & 0xFF) as u8, ((height >> 16u32) & 0xFF) as u8, ((height >> 8u32)
        & 0xFF) as u8, (height & 0xFF) as u8];
    let mut ihdr: Vec<u8> = Vec::new();
    ihdr.extend_from_slice(&wb);
    ihdr.extend_from_slice(&hb);
    ihdr.push(8u8);
    ihdr.push(6u8);
    ihdr.push(0u8);
    ihdr.push(0u8);
    ihdr.push(0u8);
    let t_ihdr: [u8; 4] = [73, 72, 68, 82];
    let t_idat: [u8; 4] = [73, 68, 65, 84];
    let t_iend: [u8; 4] = [73, 69, 78, 68];
    let empty: [u8; 0] = [];
    proof {
        assert(wb@ == u32_be_bytes(width));
        assert(hb@ == u32_be_bytes(height));
        assert(ihdr@ =~= png_ihdr(width, height));
        assert(sig@ =~= png_signature());
    }
    write_png_chunk(&mut png, &t_ihdr, ihdr.as_slice());
    write_png_chunk(&mut png, &t_idat, compressed.as_slice());
    write_png_chunk(&mut png, &t_iend, &empty);
    proof {
        assert(t_ihdr@ =~= seq![73u8, 72u8, 68u8, 82u8]);
        assert(t_idat@ =~= seq![73u8, 68u8, 65u8, 84u8]);
        assert(t_iend@ =~= seq![73u8, 69u8, 78u8, 68u8]);
        assert(empty@ =~= Seq::<u8>::empty());
        assert(png@ =~= png_with_idat(width, height, compressed@));
    }
    Ok(png)
}

} // verus!
