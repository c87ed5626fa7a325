//! Errors of the store.

use vstd::prelude::*;

verus! {

/// Why an operation of the store failed.
#[derive(Debug, PartialEq, Eq)]
pub enum KvError {
    /// `remove` was asked for a key that holds no value.
    KeyNotFound,
    /// The file system failed; the message says how.
    Io(String),
    /// The log holds bytes that are not a sequence of whole records, or a
    /// record other than the expected one.
    Corruption,
}

} // verus!
