//! The ways in which coding and reconstruction can fail.

use vstd::prelude::*;

verus! {

/// Why an operation of this library failed.
#[derive(Clone, Copy, Debug, PartialEq, Eq, Structural)]
pub enum CodecError {
    /// Shards of mismatched length, or matrix and vector dimensions that
    /// disagree.
    ShapeError,
    /// An inverse was asked of zero.
    DomainError,
    /// The matrix to invert has linearly dependent rows.
    SingularMatrix,
    /// Fewer shards survive than there are data shards.
    Insufficient,
    /// Shard counts outside of what the field allows.
    InvalidParameters,
    /// The metadata record is empty, unparseable or inconsistent with the
    /// shards.
    MetadataError,
}

} // verus!
