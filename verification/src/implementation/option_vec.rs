//! A stable vector based on the [`Option`] type.
//!
//! Each element is stored as an `Option`, and a free list is used to keep
//! track of "holes" in the vector. This allows amortised O(1) insertions and
//! deletions, with a memory usage of O(|maximum len|).

use crate::error::Error;
use crate::implementation::available_insertion_index_iterator::AvailableInsertionIndexIterator;
use crate::interface::{
    count_none, lemma_count_none_congruent, lemma_count_none_le_len, lemma_count_none_push,
    lemma_count_none_update, newly_freed, present_elements, slots_after_insert,
    slots_after_insert_at, well_formed, StableVec, StableVecAccess, StableVecIndex,
};
use crate::laws::{lemma_operation_preserves_invariant, EngineOperation};
use core::marker::PhantomData;
use vstd::pervasive::cloned;
use vstd::prelude::*;
use vstd::std_specs::cmp::PartialEqSpec;

verus! {

/// A stable vector based on the `Option` type with a free list.
///
/// Each element is stored as an `Option`, and a free list is used to keep
/// track of "holes" in the vector. The most recently freed offset is the
/// first one to be reused.
#[derive(Debug)]
pub struct OptionStableVec<Index, Data> {
    vec: Vec<Option<Data>>,
    free_list: Vec<usize>,
    phantom_data: PhantomData<Index>,
}

impl<Index: StableVecIndex, Data> OptionStableVec<Index, Data> {
    /// Create a new empty [`OptionStableVec`].
    pub fn new() -> (result: Self)
        ensures
            result.wf(),
            result.slots() == Seq::<Option<Data>>::empty(),
            result.free_list() == Seq::<usize>::empty(),
    {
        Self { vec: Vec::new(), free_list: Vec::new(), phantom_data: PhantomData }
    }

    /// The abstract invariant [`StableVecAccess::wf`] of this engine is
    /// exactly [`well_formed`] of its backing array and free list.
    pub proof fn lemma_wf_characterization(&self)
        ensures
            self.wf() <==> well_formed(self.slots(), self.free_list()),
    {
    }

    /// Split the stable vector into its backing array (holes included) and
    /// its free list, consuming it. Together with [`Self::from_parts`] this
    /// supports structural persistence of the full internal state by an
    /// external collaborator.
    pub fn into_parts(self) -> (parts: (Vec<Option<Data>>, Vec<usize>))
        ensures
            parts.0@ == self.slots(),
            parts.1@ == self.free_list(),
    {
        (self.vec, self.free_list)
    }

    /// Rebuild a stable vector from a backing array and a free list, as
    /// [`Self::into_parts`] returns them. The parts are accepted exactly
    /// when they satisfy the engine's invariant; any others are rejected, so
    /// a faithful round trip preserves the handle-to-element mapping and the
    /// free-list contents exactly.
    pub fn from_parts(vec: Vec<Option<Data>>, free_list: Vec<usize>) -> (result: Option<Self>)
        ensures
            result is Some <==> well_formed(vec@, free_list@),
            result is Some ==> {
                &&& result->0.slots() == vec@
                &&& result->0.free_list() == free_list@
                &&& result->0.wf()
            },
    {
        let mut marked: Vec<bool> = vec![false; vec.len()];
        proof {
            assert forall|i: int| 0 <= i < marked@.len() implies !(#[trigger] marked@[i]) by {
                assert(cloned(false, marked@[i]));
            }
        }
        let mut position: usize = 0;
        while position < free_list.len()
            invariant
                marked@.len() == vec@.len(),
                position <= free_list@.len(),
                forall|j: int|
                    0 <= j < position ==> (#[trigger] free_list@[j]) < vec@.len()
                        && vec@[free_list@[j] as int] is None,
                forall|j1: int, j2: int|
                    #![trigger free_list@[j1], free_list@[j2]]
                    0 <= j1 < j2 < position ==> free_list@[j1] != free_list@[j2],
                forall|i: usize|
                    i < marked@.len() ==> ((#[trigger] marked@[i as int]) <==> exists|j: int|
                        0 <= j < position && free_list@[j] == i),
            decreases free_list@.len() - position,
        {
            let entry = free_list[position];
            if entry >= vec.len() {
                return None;
            }
            if vec[entry].is_some() {
                return None;
            }
            if marked[entry] {
                proof {
                    let j = choose|j: int| 0 <= j < position && free_list@[j] == entry;
                    assert(free_list@[j] == free_list@[position as int]);
                }
                return None;
            }
            marked[entry] = true;
            proof {
                assert forall|i: usize|
                    i < marked@.len() implies ((#[trigger] marked@[i as int]) <==> exists|j: int|
                        0 <= j < position + 1 && free_list@[j] == i) by {
                    if i == entry {
                        assert(free_list@[position as int] == i);
                    } else if marked@[i as int] {
                        let j = choose|j: int| 0 <= j < position && free_list@[j] == i;
                        assert(0 <= j < position + 1 && free_list@[j] == i);
                    }
                }
            }
            position = position + 1;
        }
        let mut none_count: usize = 0;
        let mut offset: usize = 0;
        while offset < vec.len()
            invariant
                marked@.len() == vec@.len(),
                forall|j: int|
                    0 <= j < free_list@.len() ==> (#[trigger] free_list@[j]) < vec@.len()
                        && vec@[free_list@[j] as int] is None,
                forall|j1: int, j2: int|
                    #![trigger free_list@[j1], free_list@[j2]]
                    0 <= j1 < j2 < free_list@.len() ==> free_list@[j1] != free_list@[j2],
                forall|i: usize|
                    i < marked@.len() ==> ((#[trigger] marked@[i as int]) <==> exists|j: int|
                        0 <= j < free_list@.len() && free_list@[j] == i),
                offset <= vec@.len(),
                none_count <= offset,
                none_count == count_none(vec@.subrange(0, offset as int)),
                forall|i: usize|
                    i < offset && (#[trigger] vec@[i as int]) is None ==> free_list@.contains(i),
            decreases vec@.len() - offset,
        {
            if vec[offset].is_none() {
                if !marked[offset] {
                    proof {
                        if free_list@.contains(offset) {
                            let j = choose|j: int|
                                0 <= j < free_list@.len() && free_list@[j] == offset;
                        }
                    }
                    return None;
                }
                none_count = none_count + 1;
            }
            offset = offset + 1;
            proof {
                assert(vec@.subrange(0, offset as int).drop_last() =~= vec@.subrange(
                    0,
                    offset - 1,
                ));
                assert(vec@.subrange(0, offset as int).last() == vec@[offset - 1]);
            }
        }
        proof {
            assert(vec@.subrange(0, vec@.len() as int) =~= vec@);
        }
        if none_count != free_list.len() {
            return None;
        }
        proof {
            assert(well_formed(vec@, free_list@));
        }
        Some(Self { vec, free_list, phantom_data: PhantomData })
    }
}

impl<Index: StableVecIndex, Data> Default for OptionStableVec<Index, Data> {
    /// An empty stable vector.
    fn default() -> (result: Self)
        ensures
            result.wf(),
            result.slots() == Seq::<Option<Data>>::empty(),
            result.free_list() == Seq::<usize>::empty(),
    {
        Self::new()
    }
}

impl<Index: StableVecIndex, Data: Eq> PartialEq for OptionStableVec<Index, Data> {
    /// Two stable vectors are equal when their backing arrays are equal; the
    /// order of their free lists does not matter.
    fn eq(&self, other: &Self) -> (result: bool) {
        self.vec == other.vec
    }
}

impl<Index: StableVecIndex, Data: Eq> Eq for OptionStableVec<Index, Data> {

}

impl<Index: StableVecIndex, Data: Eq> vstd::std_specs::cmp::PartialEqSpecImpl for OptionStableVec<Index, Data> {
    open spec fn obeys_eq_spec() -> bool {
        <Option<Data> as vstd::std_specs::cmp::PartialEqSpec>::obeys_eq_spec()
    }

    closed spec fn eq_spec(&self, other: &Self) -> bool {
        &&& self.vec@.len() == other.vec@.len()
        &&& forall|i: int|
            #![auto]
            0 <= i < self.vec@.len() ==> vstd::std_specs::cmp::PartialEqSpec::eq_spec(
                &self.vec@[i],
                &other.vec@[i],
            )
    }
}

impl<Index: StableVecIndex, Data: Clone> Clone for OptionStableVec<Index, Data> {
    /// The clone has the same free list; every occupied slot stays occupied,
    /// holding a clone of its element, and every hole stays a hole.
    fn clone(&self) -> (result: Self)
        ensures
            result.free_list() == self.free_list(),
            result.slots().len() == self.slots().len(),
            forall|i: int|
                #![trigger result.slots()[i]]
                0 <= i < self.slots().len() ==> (result.slots()[i] is Some <==> self.slots()[i]
                    is Some),
            forall|i: int|
                0 <= i < self.slots().len() && (#[trigger] self.slots()[i]) is Some ==> cloned::<
                    Data,
                >(self.slots()[i].unwrap(), result.slots()[i].unwrap()),
            self.wf() ==> result.wf(),
    {
        let cloned_vec = self.vec.clone();
        let cloned_free = self.free_list.clone();
        proof {
            assert(cloned_free@ =~= self.free_list@);
            assert forall|i: int|
                #![trigger cloned_vec@[i]]
                0 <= i < self.vec@.len() implies (cloned_vec@[i] is Some <==> self.vec@[i]
                is Some) by {
                assert(cloned::<Option<Data>>(self.vec@[i], cloned_vec@[i]));
            }
            if well_formed(self.vec@, self.free_list@) {
                lemma_count_none_congruent(self.vec@, cloned_vec@);
                assert forall|i: usize|
                    i < cloned_vec@.len() && (#[trigger] cloned_vec@[i as int])
                        is None implies self.free_list@.contains(i) by {
                    assert(self.vec@[i as int] is None);
                }
            }
        }
        Self { vec: cloned_vec, free_list: cloned_free, phantom_data: PhantomData }
    }
}

impl<Index: StableVecIndex, Data> StableVecAccess<Index, Data> for OptionStableVec<Index, Data> {
    closed spec fn slots(&self) -> Seq<Option<Data>> {
        self.vec@
    }

    closed spec fn free_list(&self) -> Seq<usize> {
        self.free_list@
    }

    closed spec fn wf(&self) -> bool {
        well_formed(self.vec@, self.free_list@)
    }

    fn get(&self, index: Index) -> (result: Result<&Data, Error>) {
        let offset = index.to_offset();
        if offset < self.vec.len() {
            match &self.vec[offset] {
                Some(element) => Ok(element),
                None => Err(Error::UnmappedIndex { index: offset }),
            }
        } else {
            Err(Error::UnmappedIndex { index: offset })
        }
    }

    fn get_mut(&mut self, index: Index) -> (result: Result<&mut Data, Error>) {
        let offset = index.to_offset();
        if offset < self.vec.len() {
            let slot = &mut self.vec[offset];
            match slot.as_mut() {
                Some(element) => {
                    proof {
                        lemma_count_none_update(
                            old(self).vec@,
                            offset as int,
                            Some(*final(element)),
                        );
                    }
                    Ok(element)
                }
                None => {
                    proof {
                        assert(old(self).vec@.update(offset as int, None::<Data>) =~= old(
                            self,
                        ).vec@);
                    }
                    Err(Error::UnmappedIndex { index: offset })
                }
            }
        } else {
            Err(Error::UnmappedIndex { index: offset })
        }
    }

    fn len(&self) -> (length: usize) {
        proof {
            lemma_count_none_le_len(self.vec@);
        }
        self.vec.len() - self.free_list.len()
    }

    fn is_empty(&self) -> (empty: bool) {
        self.len() == 0
    }
}

impl<Index: StableVecIndex, Data> StableVec<Index, Data> for OptionStableVec<Index, Data> {
    fn insert(&mut self, element: Data) -> (index: Index) {
        let ghost old_slots = self.vec@;
        let ghost old_free = self.free_list@;
        let offset: usize;
        match self.free_list.pop() {
            Some(free_offset) => {
                proof {
                    assert(old_free[old_free.len() - 1] == free_offset);
                    assert(free_offset < old_slots.len() && old_slots[free_offset as int] is None);
                }
                offset = free_offset;
                self.vec[offset] = Some(element);
                proof {
                    lemma_operation_preserves_invariant(
                        old_slots,
                        old_free,
                        EngineOperation::Insert(element),
                    );
                    assert(self.vec@ == slots_after_insert(old_slots, old_free, element));
                }
            }
            None => {
                offset = self.vec.len();
                self.vec.push(Some(element));
                proof {
                    lemma_operation_preserves_invariant(
                        old_slots,
                        old_free,
                        EngineOperation::Insert(element),
                    );
                }
            }
        }
        Index::from_offset(offset)
    }

    fn insert_default(&mut self) -> (index: Index) where Data: Default {
        self.insert(Data::default())
    }

    fn insert_in_place<Constructor: FnOnce(Index) -> Data>(
        &mut self,
        constructor: Constructor,
    ) -> (index: Index) {
        let offset: usize = if self.free_list.len() > 0 {
            self.free_list[self.free_list.len() - 1]
        } else {
            self.vec.len()
        };
        let constructed_index = Index::from_offset(offset);
        let element = constructor(constructed_index);
        self.insert(element)
    }

    fn insert_at(&mut self, index: Index, element: Data) -> (result: Result<(), Error>) {
        let offset = index.to_offset();
        let expected_offset: usize = if self.free_list.len() > 0 {
            self.free_list[self.free_list.len() - 1]
        } else {
            self.vec.len()
        };
        if expected_offset == offset {
            let _inserted: Index = self.insert(element);
            Ok(())
        } else {
            Err(
                Error::NotTheNextAvailableInsertionIndex {
                    expected_index: expected_offset,
                    actual_index: offset,
                },
            )
        }
    }

    fn insert_at_arbitrary_index(&mut self, index: Index, element: Data) -> (result: Result<
        (),
        Error,
    >) {
        let offset = index.to_offset();
        let ghost old_slots = self.vec@;
        let ghost old_free = self.free_list@;
        if offset >= self.vec.len() {
            let mut fill = self.vec.len();
            while fill < offset
                invariant
                    well_formed(old_slots, old_free),
                    old_slots.len() <= fill <= offset,
                    self.vec@.len() == fill,
                    self.vec@ == old_slots + Seq::new(
                        (fill - old_slots.len()) as nat,
                        |k: int| None::<Data>,
                    ),
                    self.free_list@ == old_free + Seq::new(
                        (fill - old_slots.len()) as nat,
                        |k: int| (old_slots.len() + k) as usize,
                    ),
                    count_none(self.vec@) == count_none(old_slots) + (fill - old_slots.len()),
                decreases offset - fill,
            {
                let ghost previous_slots = self.vec@;
                self.free_list.push(fill);
                self.vec.push(None);
                proof {
                    lemma_count_none_push(previous_slots, None::<Data>);
                    assert(self.vec@ =~= old_slots + Seq::new(
                        (fill + 1 - old_slots.len()) as nat,
                        |k: int| None::<Data>,
                    ));
                    assert(self.free_list@ =~= old_free + Seq::new(
                        (fill + 1 - old_slots.len()) as nat,
                        |k: int| (old_slots.len() + k) as usize,
                    ));
                }
                fill = fill + 1;
            }
            let ghost grown_slots = self.vec@;
            self.vec.push(Some(element));
            proof {
                lemma_count_none_push(grown_slots, Some(element));
                assert(self.vec@ =~= slots_after_insert_at(old_slots, offset as int, element));
                let new_free = Seq::new(
                    (offset - old_slots.len()) as nat,
                    |k: int| (old_slots.len() + k) as usize,
                );
                assert forall|k: int|
                    0 <= k < self.free_list@.len() implies #[trigger] self.free_list@[k]
                    < self.vec@.len() && self.vec@[self.free_list@[k] as int] is None by {
                    if k < old_free.len() {
                        assert(self.free_list@[k] == old_free[k]);
                        assert(old_slots[old_free[k] as int] is None);
                        assert(self.vec@[old_free[k] as int] == old_slots[old_free[k] as int]);
                    } else {
                        assert(self.free_list@[k] == new_free[k - old_free.len()]);
                    }
                }
                assert(self.free_list@.no_duplicates()) by {
                    assert forall|i: int, j: int|
                        0 <= i < self.free_list@.len() && 0 <= j < self.free_list@.len() && i
                            != j implies self.free_list@[i] != self.free_list@[j] by {
                        if i < old_free.len() && j < old_free.len() {
                            assert(old_free[i] != old_free[j]);
                        } else if i < old_free.len() {
                            assert(old_free[i] < old_slots.len());
                            assert(self.free_list@[j] >= old_slots.len());
                        } else if j < old_free.len() {
                            assert(old_free[j] < old_slots.len());
                            assert(self.free_list@[i] >= old_slots.len());
                        }
                    }
                }
                assert forall|i: usize|
                    i < self.vec@.len() && (#[trigger] self.vec@[i as int])
                        is None implies self.free_list@.contains(i) by {
                    if i < old_slots.len() {
                        assert(old_slots[i as int] is None);
                        assert(old_free.contains(i));
                        let k = choose|k: int| 0 <= k < old_free.len() && old_free[k] == i;
                        assert(self.free_list@[k] == i);
                    } else {
                        assert(self.free_list@[old_free.len() + (i - old_slots.len())] == i);
                    }
                }
            }
            Ok(())
        } else if self.vec[offset].is_some() {
            Err(Error::IndexAlreadyInUse { index: offset })
        } else {
            let mut position: usize = 0;
            while position < self.free_list.len() && self.free_list[position] != offset
                invariant
                    well_formed(old_slots, old_free),
                    self.vec@ == old_slots,
                    self.free_list@ == old_free,
                    position <= old_free.len(),
                    offset < old_slots.len(),
                    old_slots[offset as int] is None,
                    forall|j: int| 0 <= j < position ==> old_free[j] != offset,
                decreases old_free.len() - position,
            {
                position = position + 1;
            }
            proof {
                assert(old_free.contains(offset));
                if position == old_free.len() {
                    let k = choose|k: int| 0 <= k < old_free.len() && old_free[k] == offset;
                    assert(old_free[k] != offset);
                }
                old_free.index_of_first_ensures(offset);
                assert(old_free.index_of_first(offset) == Some(position as int));
            }
            let _removed: usize = self.free_list.remove(position);
            self.vec[offset] = Some(element);
            proof {
                lemma_count_none_update(old_slots, offset as int, Some(element));
                old_free.remove_ensures(position as int);
                assert(self.free_list@ == old_free.remove_value(offset));
                assert forall|k: int|
                    0 <= k < self.free_list@.len() implies #[trigger] self.free_list@[k]
                    < self.vec@.len() && self.vec@[self.free_list@[k] as int] is None by {
                    if k < position {
                        assert(self.free_list@[k] == old_free[k]);
                        assert(old_free[k] != old_free[position as int]);
                    } else {
                        assert(self.free_list@[k] == old_free[k + 1]);
                        assert(old_free[k + 1] != old_free[position as int]);
                    }
                }
                assert(self.free_list@.no_duplicates()) by {
                    assert forall|i: int, j: int|
                        0 <= i < self.free_list@.len() && 0 <= j < self.free_list@.len() && i
                            != j implies self.free_list@[i] != self.free_list@[j] by {
                        let source_i: int = if i < position {
                            i
                        } else {
                            i + 1
                        };
                        let source_j: int = if j < position {
                            j
                        } else {
                            j + 1
                        };
                        assert(self.free_list@[i] == old_free[source_i]);
                        assert(self.free_list@[j] == old_free[source_j]);
                        assert(old_free[source_i] != old_free[source_j]);
                    }
                }
                assert forall|i: usize|
                    i < self.vec@.len() && (#[trigger] self.vec@[i as int])
                        is None implies self.free_list@.contains(i) by {
                    assert(old_slots[i as int] is None);
                    assert(old_free.contains(i));
                    let k = choose|k: int| 0 <= k < old_free.len() && old_free[k] == i;
                    assert(old_free[k] != old_free[position as int]);
                    if k < position {
                        assert(self.free_list@[k] == i);
                    } else {
                        assert(self.free_list@[k - 1] == i);
                    }
                }
            }
            Ok(())
        }
    }

    fn set(&mut self, index: Index, element: Data) -> (previous: Option<Data>) {
        let offset = index.to_offset();
        if offset < self.vec.len() && self.vec[offset].is_some() {
            let slot = &mut self.vec[offset];
            let previous = slot.take();
            *slot = Some(element);
            proof {
                lemma_count_none_update(old(self).vec@, offset as int, Some(element));
                assert(self.vec@ =~= old(self).vec@.update(offset as int, Some(element)));
            }
            previous
        } else {
            let _result: Result<(), Error> = self.insert_at_arbitrary_index(index, element);
            None
        }
    }

    fn remove(&mut self, index: Index) -> (result: Result<Data, Error>) {
        let offset = index.to_offset();
        if offset < self.vec.len() {
            let slot = &mut self.vec[offset];
            let taken = slot.take();
            match taken {
                Some(element) => {
                    self.free_list.push(offset);
                    proof {
                        let old_slots = old(self).vec@;
                        let old_free = old(self).free_list@;
                        assert(self.vec@ =~= old_slots.update(offset as int, None::<Data>));
                        lemma_operation_preserves_invariant(
                            old_slots,
                            old_free,
                            EngineOperation::Remove(offset),
                        );
                    }
                    Ok(element)
                }
                None => {
                    proof {
                        assert(self.vec@ =~= old(self).vec@);
                    }
                    Err(Error::UnmappedIndex { index: offset })
                }
            }
        } else {
            Err(Error::UnmappedIndex { index: offset })
        }
    }

    fn iter<'a>(&'a self) -> (result: Vec<(Index, &'a Data)>) {
        let mut result: Vec<(Index, &Data)> = Vec::new();
        let mut position: usize = 0;
        while position < self.vec.len()
            invariant
                position <= self.vec@.len(),
                result@.len() + count_none(self.vec@.subrange(0, position as int))
                    == position,
                forall|k: int|
                    0 <= k < result@.len() ==> {
                        &&& 0 <= (#[trigger] result@[k]).0.offset_spec() < position
                        &&& self.vec@[result@[k].0.offset_spec()] == Some(*result@[k].1)
                    },
                forall|k1: int, k2: int|
                    #![trigger result@[k1], result@[k2]]
                    0 <= k1 < k2 < result@.len() ==> result@[k1].0.offset_spec()
                        < result@[k2].0.offset_spec(),
                forall|offset: int|
                    0 <= offset < position && (#[trigger] self.vec@[offset]) is Some
                        ==> exists|k: int|
                        0 <= k < result@.len() && (#[trigger] result@[k]).0.offset_spec()
                            == offset,
            decreases self.vec@.len() - position,
        {
            let ghost before = result@;
            match &self.vec[position] {
                Some(element) => {
                    let handle = Index::from_offset(position);
                    result.push((handle, element));
                }
                None => {}
            }
            position = position + 1;
            proof {
                assert(self.vec@.subrange(0, position as int).drop_last() =~= self.vec@.subrange(
                    0,
                    position - 1,
                ));
                assert(self.vec@.subrange(0, position as int).last() == self.vec@[position - 1]);
                assert forall|offset: int|
                    0 <= offset < position && (#[trigger] self.vec@[offset])
                        is Some implies exists|k: int|
                    0 <= k < result@.len() && (#[trigger] result@[k]).0.offset_spec()
                        == offset by {
                    if offset == position - 1 {
                        assert(result@[result@.len() - 1].0.offset_spec() == offset);
                    } else {
                        let k = choose|k: int|
                            0 <= k < before.len() && (#[trigger] before[k]).0.offset_spec()
                                == offset;
                        assert(result@[k].0.offset_spec() == offset);
                    }
                }
            }
        }
        proof {
            assert(self.vec@.subrange(0, self.vec@.len() as int) =~= self.vec@);
        }
        result
    }

    fn iter_elements<'a>(&'a self) -> (result: Vec<&'a Data>) {
        let mut result: Vec<&Data> = Vec::new();
        let mut position: usize = 0;
        while position < self.vec.len()
            invariant
                position <= self.vec@.len(),
                result@.map_values(|element: &Data| *element) == present_elements(
                    self.vec@.subrange(0, position as int),
                ),
            decreases self.vec@.len() - position,
        {
            let ghost before = result@;
            match &self.vec[position] {
                Some(element) => {
                    result.push(element);
                }
                None => {}
            }
            position = position + 1;
            proof {
                assert(self.vec@.subrange(0, position as int).drop_last() =~= self.vec@.subrange(
                    0,
                    position - 1,
                ));
                assert(self.vec@.subrange(0, position as int).last() == self.vec@[position - 1]);
                assert(result@.map_values(|element: &Data| *element) =~= present_elements(
                    self.vec@.subrange(0, position as int),
                ));
            }
        }
        proof {
            assert(self.vec@.subrange(0, self.vec@.len() as int) =~= self.vec@);
        }
        result
    }

    fn iter_indices(&self) -> (result: Vec<Index>) {
        let mut result: Vec<Index> = Vec::new();
        let mut position: usize = 0;
        while position < self.vec.len()
            invariant
                position <= self.vec@.len(),
                result@.len() + count_none(self.vec@.subrange(0, position as int))
                    == position,
                forall|k: int|
                    0 <= k < result@.len() ==> {
                        &&& 0 <= (#[trigger] result@[k]).offset_spec() < position
                        &&& self.vec@[result@[k].offset_spec()] is Some
                    },
                forall|k1: int, k2: int|
                    #![trigger result@[k1], result@[k2]]
                    0 <= k1 < k2 < result@.len() ==> result@[k1].offset_spec()
                        < result@[k2].offset_spec(),
                forall|offset: int|
                    0 <= offset < position && (#[trigger] self.vec@[offset]) is Some
                        ==> exists|k: int|
                        0 <= k < result@.len() && (#[trigger] result@[k]).offset_spec() == offset,
            decreases self.vec@.len() - position,
        {
            let ghost before = result@;
            match &self.vec[position] {
                Some(_) => {
                    let handle = Index::from_offset(position);
                    result.push(handle);
                }
                None => {}
            }
            position = position + 1;
            proof {
                assert(self.vec@.subrange(0, position as int).drop_last() =~= self.vec@.subrange(
                    0,
                    position - 1,
                ));
                assert(self.vec@.subrange(0, position as int).last() == self.vec@[position - 1]);
                assert forall|offset: int|
                    0 <= offset < position && (#[trigger] self.vec@[offset])
                        is Some implies exists|k: int|
                    0 <= k < result@.len() && (#[trigger] result@[k]).offset_spec() == offset by {
                    if offset == position - 1 {
                        assert(result@[result@.len() - 1].offset_spec() == offset);
                    } else {
                        let k = choose|k: int|
                            0 <= k < before.len() && (#[trigger] before[k]).offset_spec()
                                == offset;
                        assert(result@[k].offset_spec() == offset);
                    }
                }
            }
        }
        proof {
            assert(self.vec@.subrange(0, self.vec@.len() as int) =~= self.vec@);
        }
        result
    }

    fn from_vec(elements: Vec<Data>) -> (result: Self) {
        let ghost initial = elements@;
        let mut elements = elements;
        let mut stack: Vec<Data> = Vec::new();
        while elements.len() > 0
            invariant
                elements@.len() + stack@.len() == initial.len(),
                elements@ == initial.subrange(0, elements@.len() as int),
                forall|k: int|
                    0 <= k < stack@.len() ==> stack@[k] == initial[initial.len() - 1 - k],
            decreases elements@.len(),
        {
            let ghost before = elements@;
            let element = elements.pop().unwrap();
            stack.push(element);
            proof {
                assert(elements@ =~= initial.subrange(0, elements@.len() as int));
            }
        }
        let mut result = Self::new();
        while stack.len() > 0
            invariant
                result.vec@.len() + stack@.len() == initial.len(),
                forall|j: int|
                    0 <= j < result.vec@.len() ==> result.vec@[j] == Some(initial[j]),
                forall|k: int|
                    0 <= k < stack@.len() ==> stack@[k] == initial[initial.len() - 1 - k],
                result.free_list@.len() == 0,
                count_none(result.vec@) == 0,
            decreases stack@.len(),
        {
            let ghost before = result.vec@;
            let element = stack.pop().unwrap();
            result.vec.push(Some(element));
            proof {
                lemma_count_none_push(before, Some(element));
            }
        }
        proof {
            assert(result.vec@ =~= initial.map_values(|element: Data| Some(element)));
        }
        result
    }

    fn into_vec(self) -> (result: Vec<Data>) {
        let ghost initial = self.vec@;
        let mut consumed = self;
        let mut result: Vec<Data> = Vec::new();
        let mut position: usize = 0;
        while position < consumed.vec.len()
            invariant
                consumed.vec@.len() == initial.len(),
                position <= initial.len(),
                forall|j: int| position <= j < initial.len() ==> consumed.vec@[j] == initial[j],
                result@ == present_elements(initial.subrange(0, position as int)),
            decreases initial.len() - position,
        {
            let slot = &mut consumed.vec[position];
            let taken = slot.take();
            match taken {
                Some(element) => result.push(element),
                None => {}
            }
            position = position + 1;
            proof {
                assert(initial.subrange(0, position as int).drop_last() =~= initial.subrange(
                    0,
                    position - 1,
                ));
                assert(initial.subrange(0, position as int).last() == initial[position - 1]);
            }
        }
        proof {
            assert(initial.subrange(0, initial.len() as int) =~= initial);
        }
        result
    }

    fn available_insertion_index_iterator(&self) -> (iterator: AvailableInsertionIndexIterator<
        Index,
    >) {
        let free_list_copy = self.free_list.clone();
        proof {
            assert(free_list_copy@ =~= self.free_list@);
        }
        AvailableInsertionIndexIterator::new(free_list_copy, self.vec.len())
    }

    fn retain<Predicate: Fn(&Data) -> bool>(&mut self, predicate: Predicate) {
        let ghost old_slots = self.vec@;
        let ghost old_free = self.free_list@;
        let mut position: usize = 0;
        while position < self.vec.len()
            invariant
                well_formed(self.vec@, self.free_list@),
                self.vec@.len() == old_slots.len(),
                position <= old_slots.len(),
                forall|j: int| position <= j < old_slots.len() ==> self.vec@[j] == old_slots[j],
                forall|i: int|
                    0 <= i < position && (#[trigger] old_slots[i]) is None ==> self.vec@[i] is None,
                forall|i: int|
                    0 <= i < position && (#[trigger] self.vec@[i]) is Some ==> self.vec@[i]
                        == old_slots[i] && call_ensures(
                        predicate,
                        (&old_slots[i].unwrap(),),
                        true,
                    ),
                forall|i: int|
                    0 <= i < position && (#[trigger] old_slots[i]) is Some && self.vec@[i] is None
                        ==> call_ensures(predicate, (&old_slots[i].unwrap(),), false),
                self.free_list@ == old_free + newly_freed(
                    old_slots.subrange(0, position as int),
                    self.vec@.subrange(0, position as int),
                ),
                forall|i: int|
                    0 <= i < old_slots.len() && (#[trigger] old_slots[i]) is Some ==> call_requires(
                        predicate,
                        (&old_slots[i].unwrap(),),
                    ),
            decreases old_slots.len() - position,
        {
            let ghost before_slots = self.vec@;
            let ghost before_free = self.free_list@;
            let keep = match &self.vec[position] {
                Some(element) => predicate(element),
                None => true,
            };
            if !keep {
                let handle = Index::from_offset(position);
                let _removed: Result<Data, Error> = self.remove(handle);
            }
            position = position + 1;
            proof {
                assert(old_slots.subrange(0, position as int).drop_last() =~= old_slots.subrange(
                    0,
                    position - 1,
                ));
                assert(self.vec@.subrange(0, position as int).drop_last() =~= self.vec@.subrange(
                    0,
                    position - 1,
                ));
                assert(self.vec@.subrange(0, position - 1) =~= before_slots.subrange(
                    0,
                    position - 1,
                ));
                assert(old_slots.subrange(0, position as int).last() == old_slots[position - 1]);
                assert(self.vec@.subrange(0, position as int).last() == self.vec@[position - 1]);
                assert(self.free_list@ =~= old_free + newly_freed(
                    old_slots.subrange(0, position as int),
                    self.vec@.subrange(0, position as int),
                ));
            }
        }
        proof {
            assert(old_slots.subrange(0, old_slots.len() as int) =~= old_slots);
            assert(self.vec@.subrange(0, old_slots.len() as int) =~= self.vec@);
        }
    }

    fn map_in_place<Function: Fn(&Data) -> Data>(&mut self, function: Function) {
        let ghost old_slots = self.vec@;
        let ghost old_free = self.free_list@;
        let mut position: usize = 0;
        while position < self.vec.len()
            invariant
                well_formed(old_slots, old_free),
                self.vec@.len() == old_slots.len(),
                self.free_list@ == old_free,
                position <= old_slots.len(),
                forall|j: int| position <= j < old_slots.len() ==> self.vec@[j] == old_slots[j],
                forall|i: int|
                    #![trigger self.vec@[i]]
                    0 <= i < position ==> (self.vec@[i] is Some <==> old_slots[i] is Some),
                forall|i: int|
                    0 <= i < position && (#[trigger] old_slots[i]) is Some ==> call_ensures(
                        function,
                        (&old_slots[i].unwrap(),),
                        self.vec@[i].unwrap(),
                    ),
                count_none(self.vec@) == count_none(old_slots),
                forall|i: int|
                    0 <= i < old_slots.len() && (#[trigger] old_slots[i]) is Some ==> call_requires(
                        function,
                        (&old_slots[i].unwrap(),),
                    ),
            decreases old_slots.len() - position,
        {
            let ghost before = self.vec@;
            let replacement = match &self.vec[position] {
                Some(element) => Some(function(element)),
                None => None,
            };
            match replacement {
                Some(new_element) => {
                    self.vec[position] = Some(new_element);
                    proof {
                        lemma_count_none_update(before, position as int, Some(new_element));
                    }
                }
                None => {}
            }
            position = position + 1;
        }
        proof {
            assert forall|i: usize|
                i < self.vec@.len() && (#[trigger] self.vec@[i as int])
                    is None implies self.free_list@.contains(i) by {
                assert(old_slots[i as int] is None);
            }
        }
    }

    fn swap_elements(&mut self, first: Index, second: Index) -> (result: Result<(), Error>) {
        let first_offset = first.to_offset();
        let second_offset = second.to_offset();
        if first_offset == second_offset {
            return Err(Error::OverlappingIndices);
        }
        if first_offset >= self.vec.len() {
            return Err(Error::UnmappedIndex { index: first_offset });
        }
        if self.vec[first_offset].is_none() {
            return Err(Error::UnmappedIndex { index: first_offset });
        }
        if second_offset >= self.vec.len() {
            return Err(Error::UnmappedIndex { index: second_offset });
        }
        if self.vec[second_offset].is_none() {
            return Err(Error::UnmappedIndex { index: second_offset });
        }
        let ghost old_slots = self.vec@;
        let first_slot = &mut self.vec[first_offset];
        let first_element = first_slot.take();
        let second_slot = &mut self.vec[second_offset];
        let second_element = second_slot.take();
        self.vec[first_offset] = second_element;
        self.vec[second_offset] = first_element;
        proof {
            let first_off = first_offset as int;
            let second_off = second_offset as int;
            let swapped = old_slots.update(first_off, old_slots[second_off]).update(
                second_off,
                old_slots[first_off],
            );
            assert(self.vec@ =~= swapped);
            lemma_count_none_update(old_slots, first_off, old_slots[second_off]);
            lemma_count_none_update(
                old_slots.update(first_off, old_slots[second_off]),
                second_off,
                old_slots[first_off],
            );
        }
        Ok(())
    }

    fn clear(&mut self) {
        self.vec.clear();
        self.free_list.clear();
    }
}

} // verus!
