//! Errors and related types.

use vstd::prelude::*;

verus! {

/// The error type: the recoverable failure conditions that the storage engine
/// reports. Every failing operation returns one of these and leaves the
/// container unmodified.
#[derive(Clone, Copy, Debug, PartialEq, Eq, Structural)]
pub enum Error {
    /// The given index is not mapped to any element.
    UnmappedIndex {
        /// The index.
        index: usize,
    },
    /// The given indices contain an overlapping pair of indices.
    OverlappingIndices,
    /// The given index is already mapped to an element.
    IndexAlreadyInUse {
        /// The index.
        index: usize,
    },
    /// The given index is not the next available insertion index.
    NotTheNextAvailableInsertionIndex {
        /// The expected next available insertion index.
        expected_index: usize,
        /// The given invalid insertion index.
        actual_index: usize,
    },
}

} // verus!
