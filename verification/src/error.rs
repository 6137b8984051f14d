//! The ways in which training, quantization and reconstruction fail.

use vstd::prelude::*;

verus! {

/// Why a request was refused.
#[derive(Debug, Clone, Copy, PartialEq, Eq, Structural)]
pub enum PqError {
    /// The sizes do not fit together: the number of subquantizers does not
    /// divide the dimensionality, a count is zero, or the number of buckets
    /// does not divide the number of eigenvalues.
    InvalidConfiguration,
    /// A vector or a code does not have the length the quantizer was trained for.
    DimensionMismatch,
    /// A code entry names a centroid that the codebook does not have.
    InvalidCode,
    /// The numbers do not allow the work: the columns of a rotation are
    /// not orthonormal, or a rotated coordinate is beyond the range of a
    /// coordinate.
    NumericalError,
}

} // verus!
