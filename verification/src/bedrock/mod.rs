//! Bedrock protocol: batches, packet ids, responses, login parsing, skins and versions.
pub mod batch;
pub mod compress;
pub mod login;
pub mod packets;
pub mod responses;
pub mod skin;
pub mod version;

pub use batch::{compress_batch, decompress_batch, parse_batch};
pub use skin::SkinExtractor;
pub use responses::{build_disconnect, build_network_settings, build_play_status};
pub use version::{
    get_latest_protocol, get_latest_version, resolve_version, set_fallback_protocol,
    set_fallback_version,
};
