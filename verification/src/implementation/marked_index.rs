//! An index type that is marked by a type.
//! This prevents to accidentally use a wrong value as the index for a stable vector.

use crate::interface::StableVecIndex;
use core::marker::PhantomData;
use vstd::prelude::*;
use vstd::std_specs::cmp::PartialEqSpec;
use vstd::std_specs::cmp::PartialOrdSpec;

verus! {

/// An index type that is marked by a type `Marker`.
/// This prevents to accidentally use a wrong value as the index for a stable
/// vector: two instantiations with different markers are different types,
/// even though both wrap the same integer. The marker contributes no runtime
/// state.
#[derive(Debug, Hash)]
pub struct MarkedIndex<Marker> {
    index: usize,
    marker: PhantomData<Marker>,
}

impl<Marker> StableVecIndex for MarkedIndex<Marker> {
    closed spec fn offset_spec(&self) -> int {
        self.index as int
    }

    fn from_offset(offset: usize) -> (index: Self) {
        Self { index: offset, marker: PhantomData }
    }

    fn to_offset(&self) -> (offset: usize) {
        self.index
    }
}

/// Two marked indices are equal exactly when they stand for the same
/// physical offset; the marker carries no state.
pub proof fn lemma_marked_index_eq_is_offset_eq<Marker>(
    first: MarkedIndex<Marker>,
    second: MarkedIndex<Marker>,
)
    ensures
        first.eq_spec(&second) <==> first.offset_spec() == second.offset_spec(),
{
}

impl<Marker> Clone for MarkedIndex<Marker> {
    fn clone(&self) -> (result: Self)
        ensures
            result == *self,
    {
        *self
    }
}

impl<Marker> Copy for MarkedIndex<Marker> {

}

impl<Marker> PartialEq for MarkedIndex<Marker> {
    fn eq(&self, other: &Self) -> (result: bool) {
        self.index == other.index
    }
}

impl<Marker> Eq for MarkedIndex<Marker> {

}

impl<Marker> vstd::std_specs::cmp::PartialEqSpecImpl for MarkedIndex<Marker> {
    closed spec fn obeys_eq_spec() -> bool {
        true
    }

    closed spec fn eq_spec(&self, other: &Self) -> bool {
        self.index == other.index
    }
}

impl<Marker> PartialOrd for MarkedIndex<Marker> {
    fn partial_cmp(&self, other: &Self) -> (result: Option<core::cmp::Ordering>) {
        if self.index < other.index {
            Some(core::cmp::Ordering::Less)
        } else if self.index == other.index {
            Some(core::cmp::Ordering::Equal)
        } else {
            Some(core::cmp::Ordering::Greater)
        }
    }
}

impl<Marker> vstd::std_specs::cmp::PartialOrdSpecImpl for MarkedIndex<Marker> {
    closed spec fn obeys_partial_cmp_spec() -> bool {
        true
    }

    closed spec fn partial_cmp_spec(&self, other: &Self) -> Option<core::cmp::Ordering> {
        if self.index < other.index {
            Some(core::cmp::Ordering::Less)
        } else if self.index == other.index {
            Some(core::cmp::Ordering::Equal)
        } else {
            Some(core::cmp::Ordering::Greater)
        }
    }
}

/// Two marked indices are ordered exactly as the physical offsets they stand
/// for.
pub proof fn lemma_marked_index_order_is_offset_order<Marker>(
    first: MarkedIndex<Marker>,
    second: MarkedIndex<Marker>,
)
    ensures
        first.partial_cmp_spec(&second) == Some(core::cmp::Ordering::Less) <==> first.offset_spec()
            < second.offset_spec(),
        first.partial_cmp_spec(&second) == Some(core::cmp::Ordering::Equal)
            <==> first.offset_spec() == second.offset_spec(),
        first.partial_cmp_spec(&second) == Some(core::cmp::Ordering::Greater)
            <==> first.offset_spec() > second.offset_spec(),
{
}

} // verus!
