//! Utilities: binary buffer, configuration text, STUN packets and text helpers.
pub mod buffer;
pub mod config;
pub mod logger;

pub use buffer::Buffer;
pub use config::{Config, ConfigManager};
pub use stun::StunClient;
pub mod random;
pub mod stun;
pub mod text;
