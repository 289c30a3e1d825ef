//! Failures that the index reports to its caller.

use vstd::prelude::*;

verus! {

/// Why an operation on the index did not take place.
#[derive(Debug, Clone, Copy, PartialEq, Eq, Structural)]
pub enum IndexError {
    /// An arena has handed out every handle it has.
    Exhausted,
    /// A bucket already holds as many items as it may.
    BucketFull,
    /// A full bucket could not be divided within the permitted depth.
    SplitDepthExceeded,
    /// Nothing is stored under the given object id.
    NotFound,
    /// The point lies outside the indexed domain.
    OutOfBounds,
}

} // verus!
