//! JWT payload extraction and the Base64 decoding it relies on.
pub mod codec;
pub mod jwt;

pub use jwt::JWT;
