//! Errors of the index types.
use vstd::prelude::*;

verus! {

/// Why vectors could not be added.
#[derive(Clone, Copy, Debug, PartialEq, Eq, Structural)]
pub enum AddError {
    /// The vectors' dimensionality is not that of the index.
    DimMismatch { existing: usize, got: usize },
    /// An index cannot be committed to a dimensionality that is not a multiple
    /// of eight.
    DimNotMultipleOf8(usize),
    /// The buffer does not hold a whole number of vectors.
    VectorBufferNotMultipleOfDim { vectors_len: usize, dim: usize },
    /// There is not one id per vector.
    IdsCountMismatch { expected: usize, got: usize },
    /// The id is already taken, by a vector of the index or by one of the call.
    IdAlreadyPresent(u64),
}

/// Why a stored index could not be restored.
#[derive(Clone, Copy, Debug, PartialEq, Eq, Structural)]
pub enum LoadError {
    /// The id table holds an id twice.
    DuplicateIds,
    /// The bytes do not start as such an index does.
    WrongMagic,
    /// The format has another version than this one.
    UnsupportedVersion,
}

} // verus!
