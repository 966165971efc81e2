//! The store's error taxonomy.

use vstd::prelude::*;

verus! {

/// Everything that a store or protocol operation can report.
///
/// `Io` carries the message of an underlying file or socket failure
/// (produced by the unverified shell around the library).  `CorruptLog`
/// marks a log whose bytes do not decode into well-formed records.
/// `DoesNotExist` is returned by `remove` on an absent key.  `Protocol`
/// marks an ill-formed wire message.  `UnhandledError` carries a message
/// reported by the remote side.
#[derive(Debug)]
pub enum Error {
    Io(String),
    CorruptLog,
    DoesNotExist { key: String },
    Protocol,
    UnhandledError(String),
}

impl Error {
    /// The human-readable message sent over the wire for this error.
    pub fn message(&self) -> (r: String)
        ensures
            r@ == self.spec_message(),
    {
        match self {
            Error::Io(m) => m.clone(),
            Error::CorruptLog => String::from_str("corrupt log"),
            Error::DoesNotExist { key: _ } => String::from_str("Key not found"),
            Error::Protocol => String::from_str("protocol error"),
            Error::UnhandledError(m) => m.clone(),
        }
    }

    /// What `message` returns, as a sequence of characters.
    pub open spec fn spec_message(&self) -> Seq<char> {
        match self {
            Error::Io(m) => m@,
            Error::CorruptLog => "corrupt log"@,
            Error::DoesNotExist { key: _ } => "Key not found"@,
            Error::Protocol => "protocol error"@,
            Error::UnhandledError(m) => m@,
        }
    }
}

} // verus!
