//! Why a call was not answered.

use vstd::prelude::*;

verus! {

/// The status of a call that failed.
#[derive(Debug, PartialEq, Eq)]
pub enum Status {
    /// The caller asked for something that makes no sense.
    InvalidArgument(String),
    /// The server could not do what it was asked.
    Internal(String),
}

} // verus!
