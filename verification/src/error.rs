//! Errors signalled by the matrix.
use vstd::prelude::*;

verus! {

/// Why an operation on a matrix was refused.
#[derive(Debug, Clone, Copy, PartialEq, Eq, Structural)]
pub enum MatrixError {
    /// The column or the row lies outside the matrix.
    OutOfBounds,
}

} // verus!
