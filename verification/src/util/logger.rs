//! Log verbosity levels.
use vstd::prelude::*;

verus! {

/// The severity threshold of the log output.
#[derive(Debug, Clone, Copy, PartialEq, Eq, Structural)]
pub enum LogLevel {
    Error,
    Warn,
    Info,
    Debug,
    Trace,
}

/// The level for a numeric verbosity: 0 = error, 1 = warn, 2 = info, 3 = debug,
/// 4 and above = trace.
pub open spec fn verbosity_level(verbosity: u8) -> LogLevel {
    if verbosity == 0 {
        LogLevel::Error
    } else if verbosity == 1 {
        LogLevel::Warn
    } else if verbosity == 2 {
        LogLevel::Info
    } else if verbosity == 3 {
        LogLevel::Debug
    } else {
        LogLevel::Trace
    }
}

/// The level for a numeric verbosity.
pub fn level_from_verbosity(verbosity: u8) -> (r: LogLevel)
    ensures
        r == verbosity_level(verbosity),
{
    match verbosity {
        0 => LogLevel::Error,
        1 => LogLevel::Warn,
        2 => LogLevel::Info,
        3 => LogLevel::Debug,
        _ => LogLevel::Trace,
    }
}

} // verus!
