//! DEFLATE and zlib streams through the `flate2` crate, and CRC-32 through `crc32fast`.
use vstd::prelude::*;

verus! {

/// What `flate2::read::DeflateDecoder` yields when it reads `data` to the end
/// (`None` when the stream is rejected).
pub uninterp spec fn raw_inflated(data: Seq<u8>) -> Option<Seq<u8>>;

/// The raw DEFLATE stream `flate2::write::DeflateEncoder` produces for `data` at level `level`
/// (`None` when the encoder reports an error).  The encoder writes into a `Vec`, so what it
/// produces, and whether it fails, depends on `data` and `level` alone.
pub uninterp spec fn raw_deflated(data: Seq<u8>, level: u32) -> Option<Seq<u8>>;

/// The zlib stream `flate2::write::ZlibEncoder` produces for `data` at level `level`
/// (`None` when the encoder reports an error).  The encoder writes into a `Vec`, so what it
/// produces, and whether it fails, depends on `data` and `level` alone.
pub uninterp spec fn zlib_deflated(data: Seq<u8>, level: u32) -> Option<Seq<u8>>;

/// The CRC-32 (IEEE) checksum `crc32fast::Hasher` computes over `data`.
pub uninterp spec fn crc32(data: Seq<u8>) -> u32;

/// Calls `flate2::read::DeflateDecoder::new(data)` and `read_to_end`.
/// The decoded bytes depend on `data` alone and are named `raw_inflated`;
/// the text of a decode error is not described.
#[verifier::external_body]
pub(crate) fn inflate_raw(data: &[u8]) -> (r: core::result::Result<Vec<u8>, String>)
    ensures
        match raw_inflated(data@) {
            Some(v) => r matches Ok(out) && out@ == v,
            None => r is Err,
        },
{
    let mut out = Vec::new();
    match std::io::Read::read_to_end(&mut flate2::read::DeflateDecoder::new(data), &mut out) {
        Ok(_) => Ok(out),
        Err(e) => Err(e.to_string()),
    }
}

/// Calls `flate2::write::DeflateEncoder::new(Vec::new(), Compression::new(level))`,
/// `write_all(data)` and `finish`.  The outcome is the one named `raw_deflated(data, level)`:
/// the stream on success, which a DEFLATE decoder turns back into `data` (the format is
/// lossless), or an error; on which inputs an error can occur is not described.
/// Levels above 10 trip a debug assertion in flate2's miniz_oxide backend, so the level
/// is at most 10.
#[verifier::external_body]
pub(crate) fn deflate_raw(data: &[u8], level: u32) -> (r: core::result::Result<Vec<u8>, String>)
    requires
        level <= 10,
    ensures
        match raw_deflated(data@, level) {
            Some(s) => r matches Ok(out) && out@ == s && raw_inflated(s) == Some(data@),
            None => r is Err,
        },
{
    let mut enc = flate2::write::DeflateEncoder::new(Vec::new(), flate2::Compression::new(level));
    match std::io::Write::write_all(&mut enc, data) {
        Ok(()) => enc.finish().map_err(|e| e.to_string()),
        Err(e) => Err(e.to_string()),
    }
}

/// Calls `flate2::write::ZlibEncoder::new(Vec::new(), Compression::new(level))`,
/// `write_all(data)` and `finish`.  The outcome is the one named `zlib_deflated(data, level)`:
/// the stream on success, or an error; on which inputs an error can occur is not
/// described.  Levels above 10 trip a debug assertion in flate2's miniz_oxide backend, so
/// the level is at most 10.
#[verifier::external_body]
pub(crate) fn deflate_zlib(data: &[u8], level: u32) -> (r: core::result::Result<Vec<u8>, String>)
    requires
        level <= 10,
    ensures
        match zlib_deflated(data@, level) {
            Some(s) => r matches Ok(out) && out@ == s,
            None => r is Err,
        },
{
    let mut enc = flate2::write::ZlibEncoder::new(Vec::new(), flate2::Compression::new(level));
    match std::io::Write::write_all(&mut enc, data) {
        Ok(()) => enc.finish().map_err(|e| e.to_string()),
        Err(e) => Err(e.to_string()),
    }
}

/// Calls `crc32fast::Hasher::new`, `update(data)` and `finalize`: the checksum of `data`,
/// named `crc32`.
#[verifier::external_body]
pub(crate) fn crc32_of(data: &[u8]) -> (r: u32)
    ensures
        r == crc32(data@),
{
    let mut h = crc32fast::Hasher::new();
    h.update(data);
    h.finalize()
}

} // verus!
