//! Tests of the storage engine's operation contract.

use general_stable_vec::error::Error;
use general_stable_vec::implementation::option_vec::OptionStableVec;
use general_stable_vec::interface::{StableVec, StableVecAccess};

#[test]
fn basic_lifecycle() {
    let mut engine: OptionStableVec<usize, String> = OptionStableVec::new();
    let first = engine.insert("a".to_string());
    assert_eq!(first, 0);
    let second = engine.insert("b".to_string());
    assert_eq!(second, 1);
    assert_eq!(engine.remove(first), Ok("a".to_string()));
    assert_eq!(engine.len(), 1);
    let third = engine.insert("c".to_string());
    assert_eq!(third, 0);
    assert_eq!(engine.get(1), Ok(&"b".to_string()));
    assert_eq!(engine.get(0), Ok(&"c".to_string()));
}

#[test]
fn empty_engine_has_no_elements() {
    let engine: OptionStableVec<usize, u64> = OptionStableVec::new();
    assert_eq!(engine.len(), 0);
    assert!(engine.is_empty());
    assert_eq!(engine.get(0), Err(Error::UnmappedIndex { index: 0 }));
}

#[test]
fn get_reports_unmapped_index() {
    let mut engine: OptionStableVec<usize, u64> = OptionStableVec::new();
    let handle = engine.insert(5);
    assert_eq!(engine.remove(handle), Ok(5));
    assert_eq!(engine.get(handle), Err(Error::UnmappedIndex { index: 0 }));
    assert_eq!(engine.get(17), Err(Error::UnmappedIndex { index: 17 }));
}

#[test]
fn remove_reports_unmapped_index() {
    let mut engine: OptionStableVec<usize, u64> = OptionStableVec::new();
    let handle = engine.insert(5);
    assert_eq!(engine.remove(handle), Ok(5));
    assert_eq!(engine.remove(handle), Err(Error::UnmappedIndex { index: 0 }));
    assert_eq!(engine.remove(3), Err(Error::UnmappedIndex { index: 3 }));
}

#[test]
fn get_mut_changes_the_element() {
    let mut engine: OptionStableVec<usize, u64> = OptionStableVec::new();
    let handle = engine.insert(5);
    *engine.get_mut(handle).unwrap() = 9;
    assert_eq!(engine.get(handle), Ok(&9));
    assert_eq!(engine.get_mut(2), Err(Error::UnmappedIndex { index: 2 }));
}

#[test]
fn handle_stability_under_other_operations() {
    let mut engine: OptionStableVec<usize, String> = OptionStableVec::new();
    let stable = engine.insert("keep".to_string());
    let doomed_one = engine.insert("x".to_string());
    let doomed_two = engine.insert("y".to_string());
    assert_eq!(engine.get(stable), Ok(&"keep".to_string()));
    engine.remove(doomed_two).unwrap();
    assert_eq!(engine.get(stable), Ok(&"keep".to_string()));
    engine.insert("z".to_string());
    assert_eq!(engine.get(stable), Ok(&"keep".to_string()));
    engine.remove(doomed_one).unwrap();
    engine.insert_at_arbitrary_index(7, "far".to_string()).unwrap();
    assert_eq!(engine.get(stable), Ok(&"keep".to_string()));
}

#[test]
fn lifo_reuse_ordering() {
    let mut engine: OptionStableVec<usize, u64> = OptionStableVec::new();
    let handle_a = engine.insert(1);
    let handle_b = engine.insert(2);
    let handle_c = engine.insert(3);
    assert_eq!((handle_a, handle_b, handle_c), (0, 1, 2));
    engine.remove(handle_a).unwrap();
    engine.remove(handle_c).unwrap();
    // The most recently freed offset is reused first.
    assert_eq!(engine.insert(30), handle_c);
    assert_eq!(engine.insert(10), handle_a);
    // Both freed offsets are exhausted: the next insertion appends.
    assert_eq!(engine.insert(40), 3);
}

#[test]
fn insert_at_accepts_only_the_next_offset() {
    let mut engine: OptionStableVec<usize, String> = OptionStableVec::new();
    assert_eq!(
        engine.insert_at(5, "x".to_string()),
        Err(Error::NotTheNextAvailableInsertionIndex { expected_index: 0, actual_index: 5 })
    );
    assert_eq!(engine.len(), 0);
    assert_eq!(engine.insert_at(0, "x".to_string()), Ok(()));
    assert_eq!(engine.insert_at(1, "y".to_string()), Ok(()));
    engine.remove(0).unwrap();
    // After a removal, the freed offset is the expected one again.
    assert_eq!(
        engine.insert_at(1, "z".to_string()),
        Err(Error::NotTheNextAvailableInsertionIndex { expected_index: 0, actual_index: 1 })
    );
    assert_eq!(engine.insert_at(0, "z".to_string()), Ok(()));
    assert_eq!(engine.get(0), Ok(&"z".to_string()));
}

#[test]
fn arbitrary_index_growth() {
    let mut engine: OptionStableVec<usize, String> = OptionStableVec::new();
    assert_eq!(engine.insert_at_arbitrary_index(5, "x".to_string()), Ok(()));
    assert_eq!(engine.len(), 1);
    assert_eq!(engine.get(5), Ok(&"x".to_string()));
    // The five new holes come back out of the available-index sequence
    // first, in some order; the sixth available index is past the end.
    let mut iterator = engine.available_insertion_index_iterator();
    let mut holes = [iterator.next(), iterator.next(), iterator.next(), iterator.next(), iterator.next()];
    holes.sort();
    assert_eq!(holes, [0, 1, 2, 3, 4]);
    assert_eq!(iterator.next(), 6);
}

#[test]
fn arbitrary_index_collision() {
    let mut engine: OptionStableVec<usize, String> = OptionStableVec::new();
    assert_eq!(engine.insert_at_arbitrary_index(0, "x".to_string()), Ok(()));
    assert_eq!(
        engine.insert_at_arbitrary_index(0, "y".to_string()),
        Err(Error::IndexAlreadyInUse { index: 0 })
    );
    assert_eq!(engine.get(0), Ok(&"x".to_string()));
}

#[test]
fn arbitrary_index_fills_a_hole() {
    let mut engine: OptionStableVec<usize, u64> = OptionStableVec::new();
    engine.insert(1);
    engine.insert(2);
    engine.insert(3);
    engine.remove(1).unwrap();
    assert_eq!(engine.insert_at_arbitrary_index(1, 20), Ok(()));
    assert_eq!(engine.get(1), Ok(&20));
    assert_eq!(engine.len(), 3);
    // The filled hole left the free list: the next insertion appends.
    assert_eq!(engine.insert(4), 3);
}

#[test]
fn set_swaps_or_inserts() {
    let mut engine: OptionStableVec<usize, String> = OptionStableVec::new();
    assert_eq!(engine.set(2, "late".to_string()), None);
    assert_eq!(engine.len(), 1);
    assert_eq!(engine.get(2), Ok(&"late".to_string()));
    assert_eq!(engine.set(2, "later".to_string()), Some("late".to_string()));
    assert_eq!(engine.get(2), Ok(&"later".to_string()));
    assert_eq!(engine.len(), 1);
}

#[test]
fn insert_in_place_knows_its_index() {
    let mut engine: OptionStableVec<usize, (usize, String)> = OptionStableVec::new();
    let handle = engine.insert_in_place(|index| (index, "self".to_string()));
    assert_eq!(handle, 0);
    assert_eq!(engine.get(handle), Ok(&(0, "self".to_string())));
    engine.insert((99, "other".to_string()));
    engine.remove(handle).unwrap();
    // The freed offset is reused, and the constructor sees it.
    let reused = engine.insert_in_place(|index| (index, "again".to_string()));
    assert_eq!(reused, 0);
    assert_eq!(engine.get(reused), Ok(&(0, "again".to_string())));
}

#[test]
fn retain_keeps_only_matching_elements() {
    let mut engine: OptionStableVec<usize, u64> = OptionStableVec::new();
    for value in 0..6 {
        engine.insert(value);
    }
    engine.remove(1).unwrap();
    engine.retain(|value| value % 2 == 0);
    assert_eq!(engine.len(), 3);
    assert_eq!(engine.get(0), Ok(&0));
    assert_eq!(engine.get(2), Ok(&2));
    assert_eq!(engine.get(4), Ok(&4));
    assert_eq!(engine.get(3), Err(Error::UnmappedIndex { index: 3 }));
    assert_eq!(engine.get(5), Err(Error::UnmappedIndex { index: 5 }));
}

#[test]
fn clear_is_idempotent() {
    let mut engine: OptionStableVec<usize, String> = OptionStableVec::new();
    let handle = engine.insert("a".to_string());
    engine.insert("b".to_string());
    engine.clear();
    engine.clear();
    assert_eq!(engine.len(), 0);
    assert!(engine.is_empty());
    assert_eq!(engine.get(handle), Err(Error::UnmappedIndex { index: 0 }));
}

#[test]
fn round_trip_of_a_dense_sequence() {
    let values = vec!["a".to_string(), "b".to_string(), "c".to_string()];
    let engine: OptionStableVec<usize, String> = OptionStableVec::from_vec(values.clone());
    assert_eq!(engine.into_vec(), values);
}

#[test]
fn from_vec_maps_element_i_to_handle_i() {
    let engine: OptionStableVec<usize, u64> = OptionStableVec::from_vec(vec![10, 20, 30]);
    assert_eq!(engine.len(), 3);
    assert_eq!(engine.get(0), Ok(&10));
    assert_eq!(engine.get(1), Ok(&20));
    assert_eq!(engine.get(2), Ok(&30));
    // The free list is empty: the next insertion appends.
    let mut engine = engine;
    assert_eq!(engine.insert(40), 3);
}

#[test]
fn into_vec_drops_the_holes() {
    let mut engine: OptionStableVec<usize, u64> = OptionStableVec::from_vec(vec![10, 20, 30, 40]);
    engine.remove(1).unwrap();
    engine.remove(3).unwrap();
    assert_eq!(engine.into_vec(), vec![10, 30]);
}

#[test]
fn iter_yields_pairs_in_ascending_offset_order() {
    let mut engine: OptionStableVec<usize, u64> = OptionStableVec::from_vec(vec![10, 20, 30, 40]);
    engine.remove(2).unwrap();
    let pairs: Vec<(usize, u64)> = engine.iter().into_iter().map(|(index, element)| (index, *element)).collect();
    assert_eq!(pairs, vec![(0, 10), (1, 20), (3, 40)]);
}

#[test]
fn iter_elements_and_indices_skip_holes() {
    let mut engine: OptionStableVec<usize, u64> = OptionStableVec::from_vec(vec![10, 20, 30]);
    engine.remove(0).unwrap();
    let elements: Vec<u64> = engine.iter_elements().into_iter().copied().collect();
    assert_eq!(elements, vec![20, 30]);
    assert_eq!(engine.iter_indices(), vec![1, 2]);
}

#[test]
fn swap_elements_requires_disjoint_mapped_indices() {
    let mut engine: OptionStableVec<usize, String> = OptionStableVec::new();
    let first = engine.insert("a".to_string());
    let second = engine.insert("b".to_string());
    assert_eq!(engine.swap_elements(first, first), Err(Error::OverlappingIndices));
    assert_eq!(engine.swap_elements(first, 9), Err(Error::UnmappedIndex { index: 9 }));
    assert_eq!(engine.swap_elements(9, second), Err(Error::UnmappedIndex { index: 9 }));
    assert_eq!(engine.get(first), Ok(&"a".to_string()));
    assert_eq!(engine.swap_elements(first, second), Ok(()));
    assert_eq!(engine.get(first), Ok(&"b".to_string()));
    assert_eq!(engine.get(second), Ok(&"a".to_string()));
}

#[test]
fn default_and_clone() {
    let mut engine: OptionStableVec<usize, u64> = Default::default();
    assert!(engine.is_empty());
    engine.insert(1);
    engine.insert(2);
    engine.remove(0).unwrap();
    let copy = engine.clone();
    assert_eq!(copy.len(), 1);
    assert_eq!(copy.get(1), Ok(&2));
    assert_eq!(copy.get(0), Err(Error::UnmappedIndex { index: 0 }));
    // The clone shares the free list, so it reuses the same offset next.
    let mut copy = copy;
    assert_eq!(copy.insert(9), 0);
}

#[test]
fn parts_round_trip_preserves_state() {
    let mut engine: OptionStableVec<usize, u64> = OptionStableVec::from_vec(vec![10, 20, 30]);
    engine.remove(0).unwrap();
    let (vec, free_list) = engine.into_parts();
    assert_eq!(vec, vec![None, Some(20), Some(30)]);
    assert_eq!(free_list, vec![0]);
    let mut restored: OptionStableVec<usize, u64> =
        OptionStableVec::from_parts(vec, free_list).unwrap();
    assert_eq!(restored.len(), 2);
    assert_eq!(restored.get(1), Ok(&20));
    // The restored free list behaves as before: offset 0 is reused first.
    assert_eq!(restored.insert(11), 0);
}

#[test]
fn from_parts_rejects_invalid_parts() {
    // A free-list entry out of range.
    assert!(OptionStableVec::<usize, u64>::from_parts(vec![Some(1)], vec![3]).is_none());
    // A free-list entry pointing at an occupied slot.
    assert!(OptionStableVec::<usize, u64>::from_parts(vec![Some(1)], vec![0]).is_none());
    // A duplicated free-list entry.
    assert!(
        OptionStableVec::<usize, u64>::from_parts(vec![None, Some(1)], vec![0, 0]).is_none()
    );
    // A hole that the free list does not mention.
    assert!(OptionStableVec::<usize, u64>::from_parts(vec![None, Some(1)], vec![]).is_none());
    // Consistent parts are accepted.
    assert!(OptionStableVec::<usize, u64>::from_parts(vec![None, Some(1)], vec![0]).is_some());
}

#[test]
fn engines_compare_by_backing_array() {
    let mut first: OptionStableVec<usize, u64> = OptionStableVec::from_vec(vec![1, 2, 3]);
    let mut second: OptionStableVec<usize, u64> = OptionStableVec::from_vec(vec![1, 2, 3]);
    // Freeing the same offsets in a different order leaves a different free
    // list but the same backing array: the engines compare equal.
    first.remove(0).unwrap();
    first.remove(2).unwrap();
    second.remove(2).unwrap();
    second.remove(0).unwrap();
    assert!(first == second);
    first.insert(9);
    assert!(first != second);
}

#[test]
fn free_list_matches_the_holes_exactly() {
    let mut engine: OptionStableVec<usize, u64> = OptionStableVec::new();
    for value in 0..5 {
        engine.insert(value);
    }
    engine.remove(1).unwrap();
    engine.remove(3).unwrap();
    engine.insert_at_arbitrary_index(8, 80).unwrap();
    let (slots, free_list) = engine.into_parts();
    let holes: Vec<usize> =
        (0..slots.len()).filter(|&offset| slots[offset].is_none()).collect();
    let mut sorted_free = free_list.clone();
    sorted_free.sort();
    assert_eq!(sorted_free, holes);
    // No duplicates: the sorted list has no equal neighbours.
    for pair in sorted_free.windows(2) {
        assert!(pair[0] != pair[1]);
    }
}

#[test]
fn map_in_place_rewrites_every_element() {
    let mut engine: OptionStableVec<usize, u64> = OptionStableVec::from_vec(vec![1, 2, 3, 4]);
    engine.remove(2).unwrap();
    engine.map_in_place(|value| value * 10);
    assert_eq!(engine.get(0), Ok(&10));
    assert_eq!(engine.get(1), Ok(&20));
    assert_eq!(engine.get(2), Err(Error::UnmappedIndex { index: 2 }));
    assert_eq!(engine.get(3), Ok(&40));
    assert_eq!(engine.len(), 3);
}

#[test]
fn insert_default_inserts_the_default_value() {
    let mut engine: OptionStableVec<usize, u64> = OptionStableVec::new();
    let handle = engine.insert_default();
    assert_eq!(handle, 0);
    assert_eq!(engine.get(handle), Ok(&0));
    engine.insert(7);
    engine.remove(handle).unwrap();
    // The freed offset is reused for the next default insertion.
    assert_eq!(engine.insert_default(), 0);
}
