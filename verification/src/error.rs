//! The ways in which an operation of this library can be refused.

use vstd::prelude::*;

verus! {

/// Why an operation was refused.
#[derive(Clone, Copy, Debug, PartialEq, Eq, Structural)]
pub enum ClamError {
    /// The operation came at the wrong moment in the life of a cluster or a
    /// tree: building twice, partitioning before building, and the like.
    InvalidLifecycle,
    /// An argument was unusable: an empty dataset, `k == 0`, an index out of
    /// range, a sequence that is no permutation.
    InvalidArgument,
}

impl ClamError {
    /// A short description of the error.
    pub fn message(&self) -> (s: &'static str)
        ensures
            s@ == (match *self {
                ClamError::InvalidLifecycle => "operation out of order"@,
                ClamError::InvalidArgument => "invalid argument"@,
            }),
    {
        match self {
            ClamError::InvalidLifecycle => "operation out of order",
            ClamError::InvalidArgument => "invalid argument",
        }
    }
}

} // verus!
