//! What can go wrong in consensus.

use crate::storage::error::StorageError;
use vstd::prelude::*;

verus! {

/// A consensus error.
#[derive(Debug, PartialEq, Eq)]
pub enum RaftError {
    /// The node is not the leader; `leader` is the one that it knows.
    NotLeader { leader: Option<String> },
    /// Storage failed.
    Storage(StorageError),
    /// A value could not be encoded.
    Serialize(String),
    /// There is no such node in the cluster.
    UnknownNode(String),
    /// The log has been compacted past an index.
    Compacted(u64),
}

} // verus!
