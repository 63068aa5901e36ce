//! Network settings: where the server binds and how large a datagram it reads.
use vstd::prelude::*;

verus! {

/// Network configuration
#[derive(Debug, Clone)]
pub struct NetworkConfig {
    pub bind_addr: String,
    pub bind_port: u16,
    pub max_packet_size: usize,
    pub timeout_ms: u64,
}

impl Default for NetworkConfig {
    /// All interfaces, the Bedrock port 19132, datagrams up to 65535 bytes, a 5 s timeout.
    fn default() -> (r: Self)
        ensures
            r.bind_addr@ == "0.0.0.0"@,
            r.bind_port == 19132,
            r.max_packet_size == 65535,
            r.timeout_ms == 5000,
    {
        NetworkConfig {
            bind_addr: String::from_str("0.0.0.0"),
            bind_port: 19132,
            max_packet_size: 65535,
            timeout_ms: 5000,
        }
    }
}

} // verus!
