//! Implementations of the index traits for [`usize`] to allow its usage as a simple index type.

use crate::interface::StableVecIndex;
use vstd::prelude::*;

verus! {

impl StableVecIndex for usize {
    open spec fn offset_spec(&self) -> int {
        *self as int
    }

    fn from_offset(offset: usize) -> (index: Self) {
        offset
    }

    fn to_offset(&self) -> (offset: usize) {
        *self
    }
}

} // verus!
