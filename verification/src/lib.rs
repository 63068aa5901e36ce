//! SkinGetBE: Minecraft Bedrock Edition skin capture over a RakNet + Bedrock stack.
//!
//! The crate holds the protocol logic: byte buffers, RakNet frame parsing and
//! building, the per-client session state machine, Bedrock batch and login
//! parsing, JWT payload extraction, skin image handling and configuration text.
use vstd::prelude::*;

pub mod bedrock;
pub mod cli;
pub mod crypto;
pub mod error;
pub mod network;
pub mod raknet;
pub mod util;

pub use error::{Error, Result};

verus! {

} // verus!
