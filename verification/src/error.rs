//! What can be wrong with a matrix or with a merge.

use vstd::prelude::*;

verus! {

/// Why a matrix was rejected or a merge refused.
#[derive(Clone, Copy, Debug, PartialEq, Eq, Structural)]
pub enum MatrixError {
    /// The matrix has not as many values as column indices.
    LengthMismatch,
    /// The row pointers are missing, do not start at zero, go down somewhere,
    /// or do not end at the number of stored entries.
    MalformedRowPointers,
    /// The incoming matrix has a row `index`, and the destination only `len`
    /// rows.
    RowOutOfBounds { index: usize, len: usize },
}

} // verus!
