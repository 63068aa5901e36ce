//! RakNet server configuration.
use vstd::prelude::*;

verus! {

/// RakNet server configuration
#[derive(Debug, Clone)]
pub struct RakNetConfig {
    pub server_guid: u64,
    pub protocol_version: u16,
    pub mtu_size: u16,
    pub server_port: u16,
    pub version: String,
    /// Optional externally-discovered public IP (e.g. from STUN)
    pub external_addr: Option<String>,
    /// Skin save mode: 0 = disabled, 1 = overwrite, 2 = create numbered files
    pub savemode: u8,
}

impl Default for RakNetConfig {
    fn default() -> (r: Self)
        ensures
            r.server_guid == 0x1234567812345678,
            r.protocol_version == 924,
            r.mtu_size == 1492,
            r.server_port == 19132,
            r.version@ == "1.26.0"@,
            r.external_addr is None,
            r.savemode == 2,
    {
        RakNetConfig {
            server_guid: 0x1234567812345678,
            protocol_version: 924,
            mtu_size: 1492,
            server_port: 19132,
            version: String::from_str("1.26.0"),
            external_addr: None,
            savemode: 2,
        }
    }
}

} // verus!
