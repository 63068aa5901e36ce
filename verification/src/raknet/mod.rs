//! RakNet: constants, packets, frame-set parsing and the per-client server state machine.
pub mod bedrock_session;
pub mod config;
pub mod constants;
pub mod frames;
pub mod game;
pub mod handshake;
pub mod packet;
pub mod protocol;
pub mod reliability;
pub mod server;
pub mod session;

pub use config::RakNetConfig;
pub use protocol::RakNetProtocol;
pub use server::RakNetServer;
