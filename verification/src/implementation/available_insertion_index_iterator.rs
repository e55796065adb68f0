//! The iterator over the available insertion indices of an
//! [`OptionStableVec`](super::option_vec::OptionStableVec).

use crate::interface::StableVecIndex;
use core::marker::PhantomData;
use vstd::prelude::*;

verus! {

/// The iterator over the available insertion indices of an
/// [`OptionStableVec`](super::option_vec::OptionStableVec).
///
/// It first replays the free list that it was constructed with (most
/// recently freed offset first), and then counts upward from the high-water
/// mark it was constructed with.
///
/// This iterator owns a copy of the free list taken at construction time: it
/// quietly becomes stale if the underlying stable vector is changed.
pub struct AvailableInsertionIndexIterator<Index> {
    free_list: Vec<usize>,
    next_index: usize,
    index: PhantomData<Index>,
}

impl<Index: StableVecIndex> AvailableInsertionIndexIterator<Index> {
    /// The part of the free-list copy that has not been yielded yet; the
    /// last entry is yielded next.
    pub closed spec fn remaining_free(&self) -> Seq<usize> {
        self.free_list@
    }

    /// The next offset to yield once the free-list copy is exhausted.
    pub closed spec fn cursor(&self) -> int {
        self.next_index as int
    }

    /// Create an iterator that replays the given free list (last entry
    /// first) and then counts upward from `next_index`.
    pub fn new(free_list: Vec<usize>, next_index: usize) -> (result: Self)
        ensures
            result.remaining_free() == free_list@,
            result.cursor() == next_index,
    {
        Self { free_list, next_index, index: PhantomData }
    }

    /// Yield the next available insertion index.
    ///
    /// Offsets cannot count upward past the largest representable offset:
    /// such an overflow would be a fatal invariant violation, so it is ruled
    /// out here rather than handled.
    pub fn next(&mut self) -> (index: Index)
        requires
            old(self).remaining_free().len() > 0 || old(self).cursor() < usize::MAX,
        ensures
            old(self).remaining_free().len() > 0 ==> {
                &&& index.offset_spec() == old(self).remaining_free().last()
                &&& final(self).remaining_free() == old(self).remaining_free().drop_last()
                &&& final(self).cursor() == old(self).cursor()
            },
            old(self).remaining_free().len() == 0 ==> {
                &&& index.offset_spec() == old(self).cursor()
                &&& final(self).remaining_free() == old(self).remaining_free()
                &&& final(self).cursor() == old(self).cursor() + 1
            },
    {
        match self.free_list.pop() {
            Some(offset) => Index::from_offset(offset),
            None => {
                let offset = self.next_index;
                self.next_index = self.next_index + 1;
                Index::from_offset(offset)
            }
        }
    }
}

} // verus!
