//! The closed set of failure kinds that the store and the protocol surface
//! to callers and, as `Msg::Error` text, to remote clients.

use vstd::prelude::*;
use vstd::string::StringExecFns;

verus! {

/// Every failure a caller can see.
///
/// `WrongEngine` carries the engine name found on disk (`expect`) and the
/// one the caller selected (`actual`).
#[derive(Debug, Clone, PartialEq, Eq)]
pub enum KvsError {
    /// An unexpected internal failure.
    Unknown,
    /// `remove` was called for a key that is not present.
    KeyNotFound,
    /// A client address without the `:PORT` part.
    InvalidIPAddressFormat,
    /// A command whose verb or arity does not fit the grammar.
    InvalidArgumentNumber,
    /// The engine-lock file names a different engine.
    WrongEngine {
        /// The engine name recorded on disk.
        expect: String,
        /// The engine name the caller selected.
        actual: String,
    },
    /// A malformed wire frame.
    Protocol,
    /// A malformed log line found while loading or reading through the log.
    Corruption,
}

/// The text that each error shows to a user or sends over the wire.
pub open spec fn error_text(e: KvsError) -> Seq<char> {
    match e {
        KvsError::Unknown => "unknown error"@,
        KvsError::KeyNotFound => "Key not found"@,
        KvsError::InvalidIPAddressFormat => "Invalid IP address format, accept IP:PORT"@,
        KvsError::InvalidArgumentNumber => "Invalid argument number"@,
        KvsError::WrongEngine { expect, actual } => "Wrong engine, expect "@ + expect@
            + ", actual "@ + actual@,
        KvsError::Protocol => "Protocol error"@,
        KvsError::Corruption => "Log corruption"@,
    }
}

impl KvsError {
    /// Render the error as the message text shown to users.
    pub fn message(&self) -> (r: String)
        ensures
            r@ == error_text(*self),
    {
        match self {
            KvsError::Unknown => String::from_str("unknown error"),
            KvsError::KeyNotFound => String::from_str("Key not found"),
            KvsError::InvalidIPAddressFormat => String::from_str(
                "Invalid IP address format, accept IP:PORT",
            ),
            KvsError::InvalidArgumentNumber => String::from_str("Invalid argument number"),
            KvsError::WrongEngine { expect, actual } => {
                let mut t = String::from_str("Wrong engine, expect ");
                t.append(expect.as_str());
                t.append(", actual ");
                t.append(actual.as_str());
                t
            },
            KvsError::Protocol => String::from_str("Protocol error"),
            KvsError::Corruption => String::from_str("Log corruption"),
        }
    }
}

} // verus!
