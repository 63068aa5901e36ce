//! Base64 decoding through the `base64` crate.
use vstd::prelude::*;

verus! {

/// What `base64`'s `URL_SAFE_NO_PAD` engine decodes `input` to (`None` when it rejects it).
pub uninterp spec fn url_safe_no_pad_decoded(input: Seq<u8>) -> Option<Seq<u8>>;

/// What `base64`'s `URL_SAFE` engine (padding required) decodes `input` to (`None` when it
/// rejects it).
pub uninterp spec fn url_safe_decoded(input: Seq<u8>) -> Option<Seq<u8>>;

/// What `base64`'s `STANDARD` engine decodes `input` to (`None` when it rejects it).
pub uninterp spec fn standard_decoded(input: Seq<u8>) -> Option<Seq<u8>>;

/// Calls `base64::engine::general_purpose::URL_SAFE_NO_PAD.decode`.
/// The result depends on the input bytes alone and is given the name
/// `url_safe_no_pad_decoded`; the text of a decode error is not described.
#[verifier::external_body]
pub(crate) fn decode_url_safe_no_pad(input: &[u8]) -> (r: core::result::Result<Vec<u8>, String>)
    ensures
        match url_safe_no_pad_decoded(input@) {
            Some(v) => r matches Ok(out) && out@ == v,
            None => r is Err,
        },
{
    base64::Engine::decode(&base64::engine::general_purpose::URL_SAFE_NO_PAD, input).map_err(
        |e| e.to_string(),
    )
}

/// Calls `base64::engine::general_purpose::URL_SAFE.decode`.
/// The result depends on the input bytes alone and is given the name `url_safe_decoded`;
/// the text of a decode error is not described.
#[verifier::external_body]
pub(crate) fn decode_url_safe(input: &[u8]) -> (r: core::result::Result<Vec<u8>, String>)
    ensures
        match url_safe_decoded(input@) {
            Some(v) => r matches Ok(out) && out@ == v,
            None => r is Err,
        },
{
    base64::Engine::decode(&base64::engine::general_purpose::URL_SAFE, input).map_err(
        |e| e.to_string(),
    )
}

/// Calls `base64::engine::general_purpose::STANDARD.decode`.
/// The result depends on the input bytes alone and is given the name `standard_decoded`;
/// the text of a decode error is not described.
#[verifier::external_body]
pub(crate) fn decode_standard(input: &[u8]) -> (r: core::result::Result<Vec<u8>, String>)
    ensures
        match standard_decoded(input@) {
            Some(v) => r matches Ok(out) && out@ == v,
            None => r is Err,
        },
{
    base64::Engine::decode(&base64::engine::general_purpose::STANDARD, input).map_err(
        |e| e.to_string(),
    )
}

} // verus!
