//! The errors of the store.

use vstd::prelude::*;

verus! {

/// What can go wrong in the store.
#[derive(Debug, PartialEq, Eq)]
pub enum KvsError {
    /// A read or write of a log file failed; the message says how.
    Io(String),
    /// The bytes of a log hold a truncated or corrupt record.
    MalformedRecord,
    /// A read asked for bytes past the end of a log.
    Truncated,
    /// A key to remove is not in the store.
    KeyNotFound,
}

} // verus!
