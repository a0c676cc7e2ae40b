//! The error type shared by every fallible operation of the store.

use vstd::prelude::*;

verus! {

/// Everything that can go wrong in the store or on the wire.
#[derive(Debug, Clone, PartialEq, Eq)]
pub enum KvsError {
    /// An underlying I/O failure, carried as its message text.
    Io { message: String },
    /// A malformed record on disk or on the wire.
    Serde { message: String },
    /// Removal of a key that is not present.
    KeyNotFound,
    /// The index pointed at a record that was not a `Set`.
    UnexpectedCommandType,
    /// An error message propagated from a remote peer.
    StringError { message: String },
}

impl KvsError {
    /// A human-readable rendering of the error.
    pub fn message(&self) -> (r: String)
        ensures
            r@ == (match self {
                KvsError::Io { message } => message@,
                KvsError::Serde { message } => message@,
                KvsError::KeyNotFound => "Key not found"@,
                KvsError::UnexpectedCommandType => "Unexpected command type"@,
                KvsError::StringError { message } => message@,
            }),
    {
        match self {
            KvsError::Io { message } => message.clone(),
            KvsError::Serde { message } => message.clone(),
            KvsError::KeyNotFound => {
                let s: &str = "Key not found";
                s.to_owned()
            },
            KvsError::UnexpectedCommandType => {
                let s: &str = "Unexpected command type";
                s.to_owned()
            },
            KvsError::StringError { message } => message.clone(),
        }
    }
}

} // verus!
