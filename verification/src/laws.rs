//! General laws of the stable vector, stated over the specification
//! vocabulary of [`crate::interface`] and proved once and for all.

use crate::interface::{
    count_none, free_list_after_insert, free_list_after_remove, lemma_count_none_push,
    lemma_count_none_update, next_insertion_offset, present_elements, slots_after_insert,
    slots_after_insert_at, slots_after_remove, well_formed,
};
use vstd::prelude::*;

verus! {

/// Handle stability: an insertion fills exactly the slot chosen by the
/// free-list / high-water-mark policy, so every other handle keeps its
/// element.
pub proof fn lemma_insert_preserves_untouched<Data>(
    slots: Seq<Option<Data>>,
    free_list: Seq<usize>,
    element: Data,
    offset: int,
)
    requires
        well_formed(slots, free_list),
        0 <= offset < slots.len(),
        offset != next_insertion_offset(slots, free_list),
    ensures
        slots_after_insert(slots, free_list, element)[offset] == slots[offset],
{
}

/// Handle stability: an insertion at an arbitrary unoccupied offset never
/// changes any other slot that already existed.
pub proof fn lemma_insert_at_preserves_untouched<Data>(
    slots: Seq<Option<Data>>,
    element: Data,
    inserted_offset: int,
    offset: int,
)
    requires
        0 <= inserted_offset,
        0 <= offset < slots.len(),
        offset != inserted_offset,
    ensures
        slots_after_insert_at(slots, inserted_offset, element)[offset] == slots[offset],
{
}

/// Handle stability: a removal empties exactly the removed slot, so every
/// other handle keeps its element.
pub proof fn lemma_remove_preserves_untouched<Data>(
    slots: Seq<Option<Data>>,
    removed_offset: int,
    offset: int,
)
    requires
        0 <= removed_offset < slots.len(),
        0 <= offset < slots.len(),
        offset != removed_offset,
    ensures
        slots_after_remove(slots, removed_offset)[offset] == slots[offset],
{
}

/// One mutating operation of the storage engine, as a mathematical value: an
/// insertion of an element at the next available offset, or the removal of
/// the element at an offset.
pub enum EngineOperation<Data> {
    /// Insert this element at the next available offset.
    Insert(Data),
    /// Remove the element at this offset.
    Remove(usize),
}

/// The offset whose slot an operation changes.
pub open spec fn operation_touches<Data>(
    slots: Seq<Option<Data>>,
    free_list: Seq<usize>,
    operation: EngineOperation<Data>,
) -> int {
    match operation {
        EngineOperation::Insert(_) => next_insertion_offset(slots, free_list),
        EngineOperation::Remove(offset) => offset as int,
    }
}

/// Whether an operation can succeed in the given state: an insertion always
/// can, a removal only of an occupied slot.
pub open spec fn operation_allowed<Data>(
    slots: Seq<Option<Data>>,
    free_list: Seq<usize>,
    operation: EngineOperation<Data>,
) -> bool {
    match operation {
        EngineOperation::Insert(_) => true,
        EngineOperation::Remove(offset) => offset < slots.len() && slots[offset as int] is Some,
    }
}

/// The backing array after one operation.
pub open spec fn slots_after_operation<Data>(
    slots: Seq<Option<Data>>,
    free_list: Seq<usize>,
    operation: EngineOperation<Data>,
) -> Seq<Option<Data>> {
    match operation {
        EngineOperation::Insert(element) => slots_after_insert(slots, free_list, element),
        EngineOperation::Remove(offset) => slots_after_remove(slots, offset as int),
    }
}

/// The free list after one operation.
pub open spec fn free_list_after_operation<Data>(
    slots: Seq<Option<Data>>,
    free_list: Seq<usize>,
    operation: EngineOperation<Data>,
) -> Seq<usize> {
    match operation {
        EngineOperation::Insert(_) => free_list_after_insert(free_list),
        EngineOperation::Remove(offset) => free_list_after_remove(free_list, offset),
    }
}

/// The state after a whole sequence of operations, applied front first.
pub open spec fn state_after_operations<Data>(
    slots: Seq<Option<Data>>,
    free_list: Seq<usize>,
    operations: Seq<EngineOperation<Data>>,
) -> (Seq<Option<Data>>, Seq<usize>)
    decreases operations.len(),
{
    if operations.len() == 0 {
        (slots, free_list)
    } else {
        state_after_operations(
            slots_after_operation(slots, free_list, operations[0]),
            free_list_after_operation(slots, free_list, operations[0]),
            operations.drop_first(),
        )
    }
}

/// Whether every operation of a sequence can succeed in the state that the
/// operations before it produce.
pub open spec fn operations_allowed<Data>(
    slots: Seq<Option<Data>>,
    free_list: Seq<usize>,
    operations: Seq<EngineOperation<Data>>,
) -> bool
    decreases operations.len(),
{
    operations.len() == 0 || (operation_allowed(slots, free_list, operations[0])
        && operations_allowed(
        slots_after_operation(slots, free_list, operations[0]),
        free_list_after_operation(slots, free_list, operations[0]),
        operations.drop_first(),
    ))
}

/// Whether no operation of a sequence touches the given offset.
pub open spec fn operations_avoid<Data>(
    slots: Seq<Option<Data>>,
    free_list: Seq<usize>,
    operations: Seq<EngineOperation<Data>>,
    offset: int,
) -> bool
    decreases operations.len(),
{
    operations.len() == 0 || (operation_touches(slots, free_list, operations[0]) != offset
        && operations_avoid(
        slots_after_operation(slots, free_list, operations[0]),
        free_list_after_operation(slots, free_list, operations[0]),
        operations.drop_first(),
        offset,
    ))
}

/// Every allowed operation preserves the engine's invariant.
pub proof fn lemma_operation_preserves_invariant<Data>(
    slots: Seq<Option<Data>>,
    free_list: Seq<usize>,
    operation: EngineOperation<Data>,
)
    requires
        well_formed(slots, free_list),
        operation_allowed(slots, free_list, operation),
    ensures
        well_formed(
            slots_after_operation(slots, free_list, operation),
            free_list_after_operation(slots, free_list, operation),
        ),
{
    let new_slots = slots_after_operation(slots, free_list, operation);
    let new_free = free_list_after_operation(slots, free_list, operation);
    match operation {
        EngineOperation::Insert(element) => {
            if free_list.len() > 0 {
                let reused = free_list.last() as int;
                lemma_count_none_update(slots, reused, Some(element));
                assert forall|k: int|
                    0 <= k < new_free.len() implies #[trigger] new_free[k] < new_slots.len()
                    && new_slots[new_free[k] as int] is None by {
                    assert(new_free[k] == free_list[k]);
                    assert(free_list[k] != free_list[free_list.len() - 1]);
                }
                assert(new_free.no_duplicates()) by {
                    assert forall|i: int, j: int|
                        0 <= i < new_free.len() && 0 <= j < new_free.len() && i
                            != j implies new_free[i] != new_free[j] by {
                        assert(new_free[i] == free_list[i]);
                        assert(new_free[j] == free_list[j]);
                    }
                }
                assert forall|i: usize|
                    i < new_slots.len() && (#[trigger] new_slots[i as int])
                        is None implies new_free.contains(i) by {
                    assert(new_slots[i as int] == slots[i as int]);
                    assert(free_list.contains(i));
                    let k = choose|k: int| 0 <= k < free_list.len() && free_list[k] == i;
                    assert(free_list[k] != free_list[free_list.len() - 1]);
                    assert(new_free[k] == i);
                }
            } else {
                lemma_count_none_push(slots, Some(element));
                assert forall|i: usize|
                    i < new_slots.len() && (#[trigger] new_slots[i as int])
                        is None implies new_free.contains(i) by {
                    assert(i < slots.len() && slots[i as int] is None);
                    assert(free_list.contains(i));
                }
            }
        }
        EngineOperation::Remove(offset) => {
            lemma_count_none_update(slots, offset as int, None::<Data>);
            assert(!free_list.contains(offset)) by {
                if free_list.contains(offset) {
                    let k = choose|k: int| 0 <= k < free_list.len() && free_list[k] == offset;
                    assert(slots[free_list[k] as int] is None);
                }
            }
            assert(new_free.no_duplicates()) by {
                assert forall|i: int, j: int|
                    0 <= i < new_free.len() && 0 <= j < new_free.len() && i != j implies new_free[i]
                    != new_free[j] by {
                    if i < free_list.len() && j < free_list.len() {
                        assert(free_list[i] != free_list[j]);
                    } else if i < free_list.len() {
                        assert(free_list.contains(free_list[i]));
                    } else if j < free_list.len() {
                        assert(free_list.contains(free_list[j]));
                    }
                }
            }
            assert forall|i: usize|
                i < new_slots.len() && (#[trigger] new_slots[i as int])
                    is None implies new_free.contains(i) by {
                if i == offset {
                    assert(new_free[free_list.len() as int] == offset);
                } else {
                    assert(slots[i as int] is None);
                    let k = choose|k: int| 0 <= k < free_list.len() && free_list[k] == i;
                    assert(new_free[k] == i);
                }
            }
        }
    }
}

/// Handle stability: through any sequence of insertions and removals none of
/// which touches the given offset, that offset keeps its element.
pub proof fn lemma_handle_stability<Data>(
    slots: Seq<Option<Data>>,
    free_list: Seq<usize>,
    operations: Seq<EngineOperation<Data>>,
    offset: int,
)
    requires
        well_formed(slots, free_list),
        operations_allowed(slots, free_list, operations),
        operations_avoid(slots, free_list, operations, offset),
        0 <= offset < slots.len(),
    ensures
        well_formed(
            state_after_operations(slots, free_list, operations).0,
            state_after_operations(slots, free_list, operations).1,
        ),
        offset < state_after_operations(slots, free_list, operations).0.len(),
        state_after_operations(slots, free_list, operations).0[offset] == slots[offset],
    decreases operations.len(),
{
    if operations.len() > 0 {
        let operation = operations[0];
        let next_slots = slots_after_operation(slots, free_list, operation);
        let next_free = free_list_after_operation(slots, free_list, operation);
        lemma_operation_preserves_invariant(slots, free_list, operation);
        match operation {
            EngineOperation::Insert(element) => {
                lemma_insert_preserves_untouched(slots, free_list, element, offset);
            }
            EngineOperation::Remove(removed_offset) => {
                lemma_remove_preserves_untouched(slots, removed_offset as int, offset);
            }
        }
        lemma_handle_stability(next_slots, next_free, operations.drop_first(), offset);
    }
}

/// Free-list soundness: under the invariant, an offset is in the free list
/// exactly when it is the offset of a hole in the backing array, and the
/// free list holds no duplicates.
pub proof fn lemma_free_list_soundness<Data>(slots: Seq<Option<Data>>, free_list: Seq<usize>)
    requires
        well_formed(slots, free_list),
    ensures
        free_list.no_duplicates(),
        forall|offset: usize|
            #[trigger] free_list.contains(offset) <==> (offset < slots.len() && slots[offset as int]
                is None),
{
    assert forall|offset: usize|
        #[trigger] free_list.contains(offset) implies (offset < slots.len() && slots[offset as int]
        is None) by {
        let k = choose|k: int| 0 <= k < free_list.len() && free_list[k] == offset;
        assert(free_list[k] < slots.len() && slots[free_list[k] as int] is None);
    }
}

/// Reuse ordering: after removing the offsets `first` and then `second` (in
/// that order), the next insertion reuses `second`, and the insertion after
/// it reuses `first` (last in, first out).
pub proof fn lemma_lifo_reuse<Data>(
    slots: Seq<Option<Data>>,
    free_list: Seq<usize>,
    first: usize,
    second: usize,
    element: Data,
)
    requires
        first != second,
    ensures
        ({
            let slots_one = slots_after_remove(slots, first as int);
            let free_one = free_list_after_remove(free_list, first);
            let slots_two = slots_after_remove(slots_one, second as int);
            let free_two = free_list_after_remove(free_one, second);
            &&& next_insertion_offset(slots_two, free_two) == second
            &&& next_insertion_offset(
                slots_after_insert(slots_two, free_two, element),
                free_list_after_insert(free_two),
            ) == first
        }),
{
    let free_one = free_list_after_remove(free_list, first);
    let free_two = free_list_after_remove(free_one, second);
    assert(free_list_after_insert(free_two) =~= free_one);
}

/// Round trip: building a stable vector from a dense sequence of elements
/// and reading the elements back returns the sequence unchanged.
pub proof fn lemma_dense_round_trip<Data>(elements: Seq<Data>)
    ensures
        present_elements(elements.map_values(|element: Data| Some(element))) == elements,
    decreases elements.len(),
{
    let mapped = elements.map_values(|element: Data| Some(element));
    if elements.len() == 0 {
        assert(present_elements(mapped) =~= elements);
    } else {
        lemma_dense_round_trip(elements.drop_last());
        assert(mapped.drop_last() =~= elements.drop_last().map_values(
            |element: Data| Some(element),
        ));
        assert(present_elements(mapped) =~= elements);
    }
}

/// Idempotent clear: clearing yields the empty state whatever the prior
/// state was, so clearing twice yields the same state as clearing once; the
/// empty state satisfies the invariant, holds no elements, and maps no
/// handle.
pub proof fn lemma_clear_idempotent<Data>()
    ensures
        well_formed(Seq::<Option<Data>>::empty(), Seq::<usize>::empty()),
        Seq::<Option<Data>>::empty().len() - count_none(Seq::<Option<Data>>::empty()) == 0,
        forall|offset: int|
            !(0 <= offset < Seq::<Option<Data>>::empty().len()
                && Seq::<Option<Data>>::empty()[offset] is Some),
{
}

} // verus!
