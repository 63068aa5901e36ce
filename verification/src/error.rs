//! Error type shared by the library.
use vstd::prelude::*;

verus! {

/// Errors reported by the library.
///
/// Every variant carries a human readable message.  I/O and JSON failures
/// come from the application layer and are handed over as text.
#[derive(Debug)]
pub enum Error {
    IoError(String),
    ProtocolError(String),
    CryptoError(String),
    JsonError(String),
    InvalidData(String),
    Other(String),
}

/// Result alias used throughout the library.
pub type Result<T> = core::result::Result<T, Error>;

impl Error {
    /// The message carried by the error, as text.
    pub open spec fn message(self) -> Seq<char> {
        match self {
            Error::IoError(m) => m@,
            Error::ProtocolError(m) => m@,
            Error::CryptoError(m) => m@,
            Error::JsonError(m) => m@,
            Error::InvalidData(m) => m@,
            Error::Other(m) => m@,
        }
    }

    /// Renders the error the way it is shown to users ("<kind>: <message>").
    pub fn to_text(&self) -> (r: String)
        ensures
            r@ == self.prefix() + self.message(),
    {
        let (prefix, m) = match self {
            Error::IoError(m) => ("IO error: ", m),
            Error::ProtocolError(m) => ("Bedrock protocol error: ", m),
            Error::CryptoError(m) => ("Cryptography error: ", m),
            Error::JsonError(m) => ("JSON error: ", m),
            Error::InvalidData(m) => ("Invalid data: ", m),
            Error::Other(m) => ("Unknown error: ", m),
        };
        let mut out = String::from_str(prefix);
        out.append(m.as_str());
        out
    }

    /// The kind label that precedes the message in `to_text`.
    pub open spec fn prefix(self) -> Seq<char> {
        match self {
            Error::IoError(_) => "IO error: "@,
            Error::ProtocolError(_) => "Bedrock protocol error: "@,
            Error::CryptoError(_) => "Cryptography error: "@,
            Error::JsonError(_) => "JSON error: "@,
            Error::InvalidData(_) => "Invalid data: "@,
            Error::Other(_) => "Unknown error: "@,
        }
    }
}

} // verus!
