//! Errors of the vector database.

use vstd::prelude::*;

verus! {

/// Why a vector or a query was refused.
#[derive(Clone, Copy, Debug, PartialEq, Eq, Structural)]
pub enum VectorDbError {
    /// The vector does not have the configured number of components.
    InvalidDimensions { expected: usize, actual: usize },
}

} // verus!
