//! The errors that the index reports.

use vstd::prelude::*;

verus! {

/// Why an operation on the index did not complete.
#[derive(Clone, Copy, Debug, PartialEq, Eq, Structural)]
pub enum IndexError {
    /// Two vectors that had to be compared differ in dimension.
    DimensionMismatch,
    /// A node that the tree refers to is in neither the cache nor the
    /// backing transaction, or is not of the kind its place requires.
    NodeNotFound,
    /// The backing transaction cannot take the write, or no further node
    /// identifier can be allocated.
    StorageFailure,
    /// Another writer committed first.
    TransactionConflict,
}

} // verus!
