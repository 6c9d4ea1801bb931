//! What can go wrong in storage.

use vstd::prelude::*;

verus! {

/// A storage error.
#[derive(Debug, PartialEq, Eq)]
pub enum StorageError {
    /// Reading or writing failed.
    Io(String),
    /// A value could not be encoded.
    Serialize(String),
    /// A value could not be decoded.
    Deserialize(String),
    /// An entry of the write-ahead log is sound but does not decode.
    CorruptedEntry { offset: u64, reason: String },
    /// There is no such key.
    KeyNotFound(String),
    /// A snapshot file is damaged.
    Snapshot(String),
}

} // verus!
