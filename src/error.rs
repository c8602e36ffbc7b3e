//! Failures reported by the matrix, vector and solver operations.

use vstd::prelude::*;

verus! {

/// The failures that the matrix and vector operations report.
#[derive(Debug, Clone, Copy, PartialEq, Eq, Structural)]
pub enum MatError {
    /// A coordinate lies outside the declared shape.
    IndexOutOfBounds,
    /// Two matrices have incompatible shapes for the operation.
    DimensionMismatch,
    /// Two vectors, or a matrix and a vector, have incompatible lengths.
    ShapeMismatch,
    /// Scalar extraction was asked of a matrix that is not 1x1.
    NotAScalar,
    /// An iterative step produced no progress.
    StagnatedIteration,
    /// The iteration budget ran out before the tolerance was met.
    DidNotConverge,
}

} // verus!
