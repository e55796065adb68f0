//! The interfaces that describe a stable vector, together with the
//! specification vocabulary that their contracts are stated in.

use crate::error::Error;
use crate::implementation::available_insertion_index_iterator::AvailableInsertionIndexIterator;
use vstd::prelude::*;

verus! {

/// The interface that describes the index (handle) type of a stable vector.
///
/// A handle stands for a non-negative physical offset into the storage
/// engine's backing array; the two conversion functions form a lossless
/// bijection with those offsets.
pub trait StableVecIndex: Sized {
    /// The physical offset this handle stands for.
    spec fn offset_spec(&self) -> int;

    /// Build the handle for the given physical offset.
    fn from_offset(offset: usize) -> (index: Self)
        ensures
            index.offset_spec() == offset,
    ;

    /// Return the physical offset this handle stands for.
    fn to_offset(&self) -> (offset: usize)
        ensures
            offset == self.offset_spec(),
    ;
}

/// The number of empty slots (holes) in a backing array.
pub open spec fn count_none<Data>(slots: Seq<Option<Data>>) -> nat
    decreases slots.len(),
{
    if slots.len() == 0 {
        0
    } else {
        count_none(slots.drop_last()) + if slots.last() is None {
            1nat
        } else {
            0nat
        }
    }
}

/// The storage engine's invariant: every free-list entry is the offset of a
/// hole, no offset is listed twice, every hole is listed, and the list's
/// length equals the number of holes.
pub open spec fn well_formed<Data>(slots: Seq<Option<Data>>, free_list: Seq<usize>) -> bool {
    &&& forall|k: int|
        0 <= k < free_list.len() ==> #[trigger] free_list[k] < slots.len()
            && slots[free_list[k] as int] is None
    &&& free_list.no_duplicates()
    &&& forall|i: usize|
        i < slots.len() && (#[trigger] slots[i as int]) is None ==> free_list.contains(i)
    &&& free_list.len() == count_none(slots)
}

/// The offset that the free-list / high-water-mark policy assigns to the next
/// insertion: the most recently freed offset if any slot is free, otherwise
/// the offset one past the end of the backing array.
pub open spec fn next_insertion_offset<Data>(
    slots: Seq<Option<Data>>,
    free_list: Seq<usize>,
) -> int {
    if free_list.len() > 0 {
        free_list.last() as int
    } else {
        slots.len() as int
    }
}

/// The backing array after an insertion: the new element fills the slot
/// chosen by [`next_insertion_offset`].
pub open spec fn slots_after_insert<Data>(
    slots: Seq<Option<Data>>,
    free_list: Seq<usize>,
    element: Data,
) -> Seq<Option<Data>> {
    if free_list.len() > 0 {
        slots.update(free_list.last() as int, Some(element))
    } else {
        slots.push(Some(element))
    }
}

/// The free list after an insertion: the reused offset is popped, or nothing
/// changes when the new element was appended past the high-water mark.
pub open spec fn free_list_after_insert(free_list: Seq<usize>) -> Seq<usize> {
    if free_list.len() > 0 {
        free_list.drop_last()
    } else {
        free_list
    }
}

/// The backing array after an insertion at an arbitrary unoccupied offset:
/// either an existing hole is filled, or the array grows up to and including
/// the requested offset, with new holes in between.
pub open spec fn slots_after_insert_at<Data>(
    slots: Seq<Option<Data>>,
    offset: int,
    element: Data,
) -> Seq<Option<Data>> {
    if offset < slots.len() {
        slots.update(offset, Some(element))
    } else {
        slots + Seq::new((offset - slots.len()) as nat, |k: int| None::<Data>) + seq![Some(element)]
    }
}

/// The free list after an insertion at an arbitrary unoccupied offset: the
/// filled hole leaves the list, or the offsets of the newly created holes are
/// appended in ascending order.
pub open spec fn free_list_after_insert_at<Data>(
    slots: Seq<Option<Data>>,
    free_list: Seq<usize>,
    offset: int,
) -> Seq<usize> {
    if offset < slots.len() {
        free_list.remove_value(offset as usize)
    } else {
        free_list + Seq::new((offset - slots.len()) as nat, |k: int| (slots.len() + k) as usize)
    }
}

/// The backing array after a removal: the slot becomes a hole.
pub open spec fn slots_after_remove<Data>(slots: Seq<Option<Data>>, offset: int) -> Seq<
    Option<Data>,
> {
    slots.update(offset, None::<Data>)
}

/// The free list after a removal: the freed offset is pushed on top, making
/// it the next one to be reused.
pub open spec fn free_list_after_remove(free_list: Seq<usize>, offset: usize) -> Seq<usize> {
    free_list.push(offset)
}

/// The elements of the occupied slots, in ascending offset order; the holes
/// are silently dropped.
pub open spec fn present_elements<Data>(slots: Seq<Option<Data>>) -> Seq<Data>
    decreases slots.len(),
{
    if slots.len() == 0 {
        Seq::empty()
    } else {
        present_elements(slots.drop_last()) + if slots.last() is Some {
            seq![slots.last().unwrap()]
        } else {
            Seq::empty()
        }
    }
}

/// The offsets of the slots that were occupied before an operation and are
/// holes after it, in ascending order.
pub open spec fn newly_freed<Data>(
    before: Seq<Option<Data>>,
    after: Seq<Option<Data>>,
) -> Seq<usize>
    decreases before.len(),
{
    if before.len() == 0 || before.len() != after.len() {
        Seq::empty()
    } else {
        newly_freed(before.drop_last(), after.drop_last()) + if before.last() is Some
            && after.last() is None {
            seq![(before.len() - 1) as usize]
        } else {
            Seq::empty()
        }
    }
}

/// Updating one slot changes the hole count according to the old and the new
/// contents of that slot.
pub proof fn lemma_count_none_update<Data>(slots: Seq<Option<Data>>, i: int, value: Option<Data>)
    requires
        0 <= i < slots.len(),
    ensures
        count_none(slots.update(i, value)) + (if slots[i] is None {
            1int
        } else {
            0int
        }) == count_none(slots) + (if value is None {
            1int
        } else {
            0int
        }),
    decreases slots.len(),
{
    let updated = slots.update(i, value);
    if i == slots.len() - 1 {
        assert(updated.drop_last() =~= slots.drop_last());
    } else {
        assert(updated.drop_last() =~= slots.drop_last().update(i, value));
        lemma_count_none_update(slots.drop_last(), i, value);
        assert(updated.last() == slots.last());
    }
}

/// Two backing arrays whose slots are occupied at the same offsets have the
/// same hole count.
pub proof fn lemma_count_none_congruent<Data>(first: Seq<Option<Data>>, second: Seq<Option<Data>>)
    requires
        first.len() == second.len(),
        forall|i: int|
            #![trigger first[i], second[i]]
            0 <= i < first.len() ==> (first[i] is None <==> second[i] is None),
    ensures
        count_none(first) == count_none(second),
    decreases first.len(),
{
    if first.len() > 0 {
        assert forall|i: int|
            #![trigger first.drop_last()[i], second.drop_last()[i]]
            0 <= i < first.drop_last().len() implies (first.drop_last()[i] is None
            <==> second.drop_last()[i] is None) by {
            assert(first.drop_last()[i] == first[i]);
            assert(second.drop_last()[i] == second[i]);
        }
        lemma_count_none_congruent(first.drop_last(), second.drop_last());
    }
}

/// There are never more holes than slots.
pub proof fn lemma_count_none_le_len<Data>(slots: Seq<Option<Data>>)
    ensures
        count_none(slots) <= slots.len(),
    decreases slots.len(),
{
    if slots.len() > 0 {
        lemma_count_none_le_len(slots.drop_last());
    }
}

/// Appending a slot changes the hole count according to its contents.
pub proof fn lemma_count_none_push<Data>(slots: Seq<Option<Data>>, value: Option<Data>)
    ensures
        count_none(slots.push(value)) == count_none(slots) + (if value is None {
            1int
        } else {
            0int
        }),
{
    assert(slots.push(value).drop_last() =~= slots);
    assert(slots.push(value).last() == value);
}

/// The interface that describes methods to access elements inside a stable
/// vector.
///
/// This is separate from the [`StableVec`] trait to allow creating views of a
/// stable vector that do not allow insertion or deletion, but still grant
/// access to contained elements.
pub trait StableVecAccess<Index: StableVecIndex, Data>: Sized {
    /// The backing array, as a mathematical sequence of optional slots.
    spec fn slots(&self) -> Seq<Option<Data>>;

    /// The free list: the offsets of the holes, most recently freed last.
    spec fn free_list(&self) -> Seq<usize>;

    /// The container's internal invariant; constructors establish it and
    /// every operation preserves it.
    spec fn wf(&self) -> bool;

    /// Get a reference to the element at the given index.
    /// If the index is not mapped to an element, an
    /// [`Error::UnmappedIndex`] is returned.
    fn get(&self, index: Index) -> (result: Result<&Data, Error>)
        requires
            self.wf(),
        ensures
            match result {
                Ok(element) => {
                    &&& 0 <= index.offset_spec() < self.slots().len()
                    &&& self.slots()[index.offset_spec()] == Some(*element)
                },
                Err(error) => {
                    &&& !(0 <= index.offset_spec() < self.slots().len()
                        && self.slots()[index.offset_spec()] is Some)
                    &&& error == (Error::UnmappedIndex { index: index.offset_spec() as usize })
                },
            },
    ;

    /// Get a mutable reference to the element at the given index.
    /// If the index is not mapped to an element, an
    /// [`Error::UnmappedIndex`] is returned.
    fn get_mut(&mut self, index: Index) -> (result: Result<&mut Data, Error>)
        requires
            old(self).wf(),
        ensures
            result is Ok <==> (0 <= index.offset_spec() < old(self).slots().len()
                && old(self).slots()[index.offset_spec()] is Some),
            result is Ok ==> {
                &&& old(self).slots()[index.offset_spec()] == Some(*result->Ok_0)
                &&& final(self).slots() == old(self).slots().update(
                    index.offset_spec(),
                    Some(*final(result->Ok_0)),
                )
                &&& final(self).free_list() == old(self).free_list()
                &&& final(self).wf()
            },
            result is Err ==> {
                &&& result->Err_0 == (Error::UnmappedIndex {
                    index: index.offset_spec() as usize,
                })
                &&& final(self).slots() == old(self).slots()
                &&& final(self).free_list() == old(self).free_list()
                &&& final(self).wf()
            },
    ;

    /// Return the number of elements in the stable vector.
    fn len(&self) -> (length: usize)
        requires
            self.wf(),
        ensures
            length == self.slots().len() - count_none(self.slots()),
    ;

    /// Returns true if the stable vector is empty.
    fn is_empty(&self) -> (empty: bool)
        requires
            self.wf(),
        ensures
            empty <==> self.slots().len() == count_none(self.slots()),
    ;
}

/// The interface that defines the full functionality of a stable vector.
pub trait StableVec<Index: StableVecIndex, Data>: StableVecAccess<Index, Data> {
    /// Insert a single element into the stable vector at an arbitrary index.
    /// Return the index.
    ///
    /// The most recently freed offset is reused if any slot is free;
    /// otherwise the element is appended at the end of the backing array.
    fn insert(&mut self, element: Data) -> (index: Index)
        requires
            old(self).wf(),
        ensures
            final(self).wf(),
            index.offset_spec() == next_insertion_offset(old(self).slots(), old(self).free_list()),
            final(self).slots() == slots_after_insert(
                old(self).slots(),
                old(self).free_list(),
                element,
            ),
            final(self).free_list() == free_list_after_insert(old(self).free_list()),
    ;

    /// Insert the default value for a single element into the stable vector
    /// at an arbitrary index. Return the index.
    fn insert_default(&mut self) -> (index: Index) where Data: Default
        requires
            old(self).wf(),
        ensures
            final(self).wf(),
            index.offset_spec() == next_insertion_offset(old(self).slots(), old(self).free_list()),
            final(self).free_list() == free_list_after_insert(old(self).free_list()),
            exists|element: Data|
                {
                    &&& #[trigger] call_ensures(Data::default, (), element)
                    &&& final(self).slots() == slots_after_insert(
                        old(self).slots(),
                        old(self).free_list(),
                        element,
                    )
                },
    ;

    /// Insert a single element into the stable vector by constructing it in
    /// place. This method allows to create the element while already knowing
    /// its index. Returns the index.
    fn insert_in_place<Constructor: FnOnce(Index) -> Data>(
        &mut self,
        constructor: Constructor,
    ) -> (index: Index)
        requires
            old(self).wf(),
            forall|i: Index|
                i.offset_spec() == next_insertion_offset(old(self).slots(), old(self).free_list())
                    ==> #[trigger] call_requires(constructor, (i,)),
        ensures
            final(self).wf(),
            index.offset_spec() == next_insertion_offset(old(self).slots(), old(self).free_list()),
            final(self).free_list() == free_list_after_insert(old(self).free_list()),
            exists|chosen: Index, element: Data|
                {
                    &&& chosen.offset_spec() == next_insertion_offset(
                        old(self).slots(),
                        old(self).free_list(),
                    )
                    &&& #[trigger] call_ensures(constructor, (chosen,), element)
                    &&& final(self).slots() == slots_after_insert(
                        old(self).slots(),
                        old(self).free_list(),
                        element,
                    )
                },
    ;

    /// Inserts a single element into the stable vector at the given index.
    /// The index must be the next one that the free-list / high-water-mark
    /// policy would assign. If a different index is given, an
    /// [`Error::NotTheNextAvailableInsertionIndex`] is returned and nothing
    /// changes.
    fn insert_at(&mut self, index: Index, element: Data) -> (result: Result<(), Error>)
        requires
            old(self).wf(),
        ensures
            final(self).wf(),
            result is Ok <==> index.offset_spec() == next_insertion_offset(
                old(self).slots(),
                old(self).free_list(),
            ),
            result is Ok ==> {
                &&& final(self).slots() == slots_after_insert(
                    old(self).slots(),
                    old(self).free_list(),
                    element,
                )
                &&& final(self).free_list() == free_list_after_insert(old(self).free_list())
            },
            result is Err ==> {
                &&& result->Err_0 == (Error::NotTheNextAvailableInsertionIndex {
                    expected_index: next_insertion_offset(
                        old(self).slots(),
                        old(self).free_list(),
                    ) as usize,
                    actual_index: index.offset_spec() as usize,
                })
                &&& final(self).slots() == old(self).slots()
                &&& final(self).free_list() == old(self).free_list()
            },
    ;

    /// Inserts a single element into the stable vector at the given index.
    /// This index may be any index that is not currently in use; the backing
    /// array grows as needed. If an index that is already mapped to an
    /// element is given, an [`Error::IndexAlreadyInUse`] is returned and
    /// nothing changes.
    ///
    /// This method may be slower than expected, because it may need to update
    /// the free list.
    fn insert_at_arbitrary_index(&mut self, index: Index, element: Data) -> (result: Result<
        (),
        Error,
    >)
        requires
            old(self).wf(),
        ensures
            final(self).wf(),
            result is Ok <==> !(index.offset_spec() < old(self).slots().len() && old(
                self,
            ).slots()[index.offset_spec()] is Some),
            result is Ok ==> {
                &&& final(self).slots() == slots_after_insert_at(
                    old(self).slots(),
                    index.offset_spec(),
                    element,
                )
                &&& final(self).free_list() == free_list_after_insert_at(
                    old(self).slots(),
                    old(self).free_list(),
                    index.offset_spec(),
                )
            },
            result is Err ==> {
                &&& result->Err_0 == (Error::IndexAlreadyInUse {
                    index: index.offset_spec() as usize,
                })
                &&& final(self).slots() == old(self).slots()
                &&& final(self).free_list() == old(self).free_list()
            },
    ;

    /// Sets the index to the given value.
    /// If the index was already mapped to a value, the old value is returned.
    /// Otherwise, the given value is newly inserted.
    fn set(&mut self, index: Index, element: Data) -> (previous: Option<Data>)
        requires
            old(self).wf(),
        ensures
            final(self).wf(),
            previous is Some <==> (index.offset_spec() < old(self).slots().len() && old(
                self,
            ).slots()[index.offset_spec()] is Some),
            previous is Some ==> {
                &&& old(self).slots()[index.offset_spec()] == previous
                &&& final(self).slots() == old(self).slots().update(
                    index.offset_spec(),
                    Some(element),
                )
                &&& final(self).free_list() == old(self).free_list()
            },
            previous is None ==> {
                &&& final(self).slots() == slots_after_insert_at(
                    old(self).slots(),
                    index.offset_spec(),
                    element,
                )
                &&& final(self).free_list() == free_list_after_insert_at(
                    old(self).slots(),
                    old(self).free_list(),
                    index.offset_spec(),
                )
            },
    ;

    /// Remove and return the element at the given index; its offset is pushed
    /// onto the free list. If the index is not mapped to any element, an
    /// [`Error::UnmappedIndex`] is returned.
    fn remove(&mut self, index: Index) -> (result: Result<Data, Error>)
        requires
            old(self).wf(),
        ensures
            final(self).wf(),
            result is Ok <==> (0 <= index.offset_spec() < old(self).slots().len()
                && old(self).slots()[index.offset_spec()] is Some),
            result is Ok ==> {
                &&& old(self).slots()[index.offset_spec()] == Some(result->Ok_0)
                &&& final(self).slots() == slots_after_remove(
                    old(self).slots(),
                    index.offset_spec(),
                )
                &&& final(self).free_list() == free_list_after_remove(
                    old(self).free_list(),
                    index.offset_spec() as usize,
                )
            },
            result is Err ==> {
                &&& result->Err_0 == (Error::UnmappedIndex {
                    index: index.offset_spec() as usize,
                })
                &&& final(self).slots() == old(self).slots()
                &&& final(self).free_list() == old(self).free_list()
            },
    ;

    /// Returns an iterator that iterates over the available insertion
    /// indices in this stable vector. These are the "holes" in the backing
    /// array (most recently freed first), followed by the offsets after the
    /// end of the backing array.
    ///
    /// The iterator owns a copy of the free list taken at call time: it does
    /// not observe later mutations of the stable vector.
    fn available_insertion_index_iterator(&self) -> (iterator: AvailableInsertionIndexIterator<
        Index,
    >)
        requires
            self.wf(),
        ensures
            iterator.remaining_free() == self.free_list(),
            iterator.cursor() == self.slots().len(),
    ;

    /// Return the pairs of (index, element) of the occupied slots, in
    /// ascending offset order; the holes are skipped.
    fn iter<'a>(&'a self) -> (result: Vec<(Index, &'a Data)>)
        requires
            self.wf(),
        ensures
            result@.len() + count_none(self.slots()) == self.slots().len(),
            forall|k: int|
                0 <= k < result@.len() ==> {
                    &&& 0 <= (#[trigger] result@[k]).0.offset_spec() < self.slots().len()
                    &&& self.slots()[result@[k].0.offset_spec()] == Some(*result@[k].1)
                },
            forall|k1: int, k2: int|
                #![trigger result@[k1], result@[k2]]
                0 <= k1 < k2 < result@.len() ==> result@[k1].0.offset_spec()
                    < result@[k2].0.offset_spec(),
            forall|offset: int|
                0 <= offset < self.slots().len() && (#[trigger] self.slots()[offset]) is Some
                    ==> exists|k: int|
                    0 <= k < result@.len() && (#[trigger] result@[k]).0.offset_spec() == offset,
    ;

    /// Return the elements of the occupied slots, in ascending offset order;
    /// the holes are skipped.
    fn iter_elements<'a>(&'a self) -> (result: Vec<&'a Data>)
        requires
            self.wf(),
        ensures
            result@.map_values(|element: &Data| *element) == present_elements(self.slots()),
    ;

    /// Return the indices that are currently mapped to an element, in
    /// ascending offset order.
    fn iter_indices(&self) -> (result: Vec<Index>)
        requires
            self.wf(),
        ensures
            result@.len() + count_none(self.slots()) == self.slots().len(),
            forall|k: int|
                0 <= k < result@.len() ==> {
                    &&& 0 <= (#[trigger] result@[k]).offset_spec() < self.slots().len()
                    &&& self.slots()[result@[k].offset_spec()] is Some
                },
            forall|k1: int, k2: int|
                #![trigger result@[k1], result@[k2]]
                0 <= k1 < k2 < result@.len() ==> result@[k1].offset_spec()
                    < result@[k2].offset_spec(),
            forall|offset: int|
                0 <= offset < self.slots().len() && (#[trigger] self.slots()[offset]) is Some
                    ==> exists|k: int|
                    0 <= k < result@.len() && (#[trigger] result@[k]).offset_spec() == offset,
    ;

    /// Construct a stable vector from a pre-populated dense sequence of
    /// elements: element `i` is mapped to offset `i`, and the free list is
    /// empty.
    fn from_vec(elements: Vec<Data>) -> (result: Self)
        ensures
            result.wf(),
            result.slots() == elements@.map_values(|element: Data| Some(element)),
            result.free_list() == Seq::<usize>::empty(),
    ;

    /// Convert the stable vector into the sequence of its elements in
    /// ascending offset order, consuming it; the holes are silently dropped.
    fn into_vec(self) -> (result: Vec<Data>)
        ensures
            result@ == present_elements(self.slots()),
    ;

    /// Remove all elements for which the predicate returns false.
    ///
    /// The predicate is evaluated exactly once per slot that was occupied
    /// when the call was made, in ascending offset order, and the offsets of
    /// the removed elements are pushed onto the free list in that order.
    fn retain<Predicate: Fn(&Data) -> bool>(&mut self, predicate: Predicate)
        requires
            old(self).wf(),
            forall|i: int|
                0 <= i < old(self).slots().len() && (#[trigger] old(self).slots()[i]) is Some
                    ==> call_requires(predicate, (&old(self).slots()[i].unwrap(),)),
        ensures
            final(self).wf(),
            final(self).slots().len() == old(self).slots().len(),
            forall|i: int|
                0 <= i < old(self).slots().len() && (#[trigger] old(self).slots()[i]) is None
                    ==> final(self).slots()[i] is None,
            forall|i: int|
                0 <= i < old(self).slots().len() && (#[trigger] final(self).slots()[i]) is Some
                    ==> final(self).slots()[i] == old(self).slots()[i] && call_ensures(
                    predicate,
                    (&old(self).slots()[i].unwrap(),),
                    true,
                ),
            forall|i: int|
                0 <= i < old(self).slots().len() && (#[trigger] old(self).slots()[i]) is Some
                    && final(self).slots()[i] is None ==> call_ensures(
                    predicate,
                    (&old(self).slots()[i].unwrap(),),
                    false,
                ),
            final(self).free_list() == old(self).free_list() + newly_freed(
                old(self).slots(),
                final(self).slots(),
            ),
    ;

    /// Replace the element of every occupied slot by the image that the
    /// given function computes from it, in ascending offset order. The holes
    /// and the free list stay as they are: this is elementwise mutable
    /// access to the whole container in one call.
    fn map_in_place<Function: Fn(&Data) -> Data>(&mut self, function: Function)
        requires
            old(self).wf(),
            forall|i: int|
                0 <= i < old(self).slots().len() && (#[trigger] old(self).slots()[i]) is Some
                    ==> call_requires(function, (&old(self).slots()[i].unwrap(),)),
        ensures
            final(self).wf(),
            final(self).slots().len() == old(self).slots().len(),
            final(self).free_list() == old(self).free_list(),
            forall|i: int|
                #![trigger final(self).slots()[i]]
                0 <= i < old(self).slots().len() ==> (final(self).slots()[i] is Some <==> old(
                    self,
                ).slots()[i] is Some),
            forall|i: int|
                0 <= i < old(self).slots().len() && (#[trigger] old(self).slots()[i]) is Some
                    ==> call_ensures(
                    function,
                    (&old(self).slots()[i].unwrap(),),
                    final(self).slots()[i].unwrap(),
                ),
    ;

    /// Swap the elements at two distinct mapped indices in one call.
    ///
    /// This is the disjoint mutable multi-access operation: a request that
    /// names the same offset twice is rejected with
    /// [`Error::OverlappingIndices`], a request naming an unmapped index is
    /// rejected with [`Error::UnmappedIndex`], and a failing call leaves the
    /// container unmodified.
    fn swap_elements(&mut self, first: Index, second: Index) -> (result: Result<(), Error>)
        requires
            old(self).wf(),
        ensures
            final(self).wf(),
            result is Ok <==> {
                &&& first.offset_spec() != second.offset_spec()
                &&& 0 <= first.offset_spec() < old(self).slots().len()
                &&& old(self).slots()[first.offset_spec()] is Some
                &&& 0 <= second.offset_spec() < old(self).slots().len()
                &&& old(self).slots()[second.offset_spec()] is Some
            },
            result is Ok ==> {
                &&& final(self).slots() == old(self).slots().update(
                    first.offset_spec(),
                    old(self).slots()[second.offset_spec()],
                ).update(second.offset_spec(), old(self).slots()[first.offset_spec()])
                &&& final(self).free_list() == old(self).free_list()
            },
            result is Err ==> {
                &&& final(self).slots() == old(self).slots()
                &&& final(self).free_list() == old(self).free_list()
                &&& first.offset_spec() == second.offset_spec() ==> result->Err_0
                    == Error::OverlappingIndices
                &&& (first.offset_spec() != second.offset_spec() && !(0 <= first.offset_spec()
                    < old(self).slots().len() && old(self).slots()[first.offset_spec()] is Some))
                    ==> result->Err_0 == (Error::UnmappedIndex {
                    index: first.offset_spec() as usize,
                })
                &&& (first.offset_spec() != second.offset_spec() && 0 <= first.offset_spec() < old(
                    self,
                ).slots().len() && old(self).slots()[first.offset_spec()] is Some) ==> result->Err_0
                    == (Error::UnmappedIndex { index: second.offset_spec() as usize })
            },
    ;

    /// Delete all elements from the stable vector.
    fn clear(&mut self)
        ensures
            final(self).wf(),
            final(self).slots() == Seq::<Option<Data>>::empty(),
            final(self).free_list() == Seq::<usize>::empty(),
    ;
}

} // verus!
