//! Error kinds of the store.
use vstd::prelude::*;

verus! {

/// What went wrong in an operation on a table.
#[derive(Debug)]
pub enum Error {
    /// The underlying store failed.
    Storage(String),
    /// A required primary key (and column) is not present.
    NotFound { pk: String, col: Option<String> },
    /// Equal versions with differing values where no tiebreak applies.
    Conflict { pk: String, col: String, local_version: u64, remote_version: u64 },
    /// A caller broke an invariant; here, a version that would pass `u64::MAX`.
    InvalidState(String),
}

} // verus!
