//! The storage-engine interface of the server.

use vstd::prelude::*;

use crate::error::KvsError;

verus! {

/// A key-value storage engine usable from any thread through a shared
/// handle.  [`crate::KvStore`] is this crate's engine; the runtime shell
/// wraps it behind a writer lock to provide these shared-handle
/// operations, and an outside engine may stand in instead.
pub trait KvsEngine {
    /// Binds `key` to `value`.
    fn set(&self, key: String, value: String) -> Result<(), KvsError>;

    /// Reads `key`'s current value, if it is bound.
    fn get(&self, key: String) -> Result<Option<String>, KvsError>;

    /// Unbinds `key`; an unbound key is an error.
    fn remove(&self, key: String) -> Result<(), KvsError>;
}

} // verus!
