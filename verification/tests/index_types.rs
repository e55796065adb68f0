//! Tests of the index types and of the available-index sequence.

use general_stable_vec::implementation::available_insertion_index_iterator::AvailableInsertionIndexIterator;
use general_stable_vec::implementation::marked_index::MarkedIndex;
use general_stable_vec::implementation::option_vec::OptionStableVec;
use general_stable_vec::interface::{StableVec, StableVecAccess, StableVecIndex};

#[derive(Debug)]
struct EngineTag;

#[test]
fn usize_is_its_own_offset() {
    let handle = <usize as StableVecIndex>::from_offset(7);
    assert_eq!(handle, 7);
    assert_eq!(handle.to_offset(), 7);
}

#[test]
fn marked_index_round_trips_its_offset() {
    let handle = MarkedIndex::<EngineTag>::from_offset(42);
    assert_eq!(handle.to_offset(), 42);
}

#[test]
fn marked_index_compares_by_offset() {
    let low = MarkedIndex::<EngineTag>::from_offset(1);
    let low_again = MarkedIndex::<EngineTag>::from_offset(1);
    let high = MarkedIndex::<EngineTag>::from_offset(2);
    assert_eq!(low, low_again);
    assert_ne!(low, high);
    assert!(low < high);
    assert!(high > low);
    assert_eq!(low.partial_cmp(&low_again), Some(std::cmp::Ordering::Equal));
    let copied = low;
    assert_eq!(copied.clone(), low);
}

#[test]
fn marked_index_drives_an_engine() {
    let mut engine: OptionStableVec<MarkedIndex<EngineTag>, String> = OptionStableVec::new();
    let first = engine.insert("a".to_string());
    let second = engine.insert("b".to_string());
    assert_eq!(first.to_offset(), 0);
    assert_eq!(second.to_offset(), 1);
    assert_eq!(engine.remove(first), Ok("a".to_string()));
    assert_eq!(engine.insert("c".to_string()), first);
    assert_eq!(engine.get(second), Ok(&"b".to_string()));
}

#[test]
fn available_indices_replay_the_free_list_then_count_upward() {
    let mut iterator: AvailableInsertionIndexIterator<usize> =
        AvailableInsertionIndexIterator::new(vec![4, 2], 6);
    // The free-list copy is replayed most recently freed first.
    assert_eq!(iterator.next(), 2);
    assert_eq!(iterator.next(), 4);
    // Then the sequence counts upward from the high-water mark.
    assert_eq!(iterator.next(), 6);
    assert_eq!(iterator.next(), 7);
    assert_eq!(iterator.next(), 8);
}

#[test]
fn available_indices_of_an_engine_predict_insertions() {
    let mut engine: OptionStableVec<usize, u64> = OptionStableVec::new();
    engine.insert(1);
    engine.insert(2);
    engine.insert(3);
    engine.remove(0).unwrap();
    engine.remove(2).unwrap();
    let mut iterator = engine.available_insertion_index_iterator();
    let predicted = [iterator.next(), iterator.next(), iterator.next()];
    assert_eq!(predicted, [2, 0, 3]);
    assert_eq!(engine.insert(30), 2);
    assert_eq!(engine.insert(10), 0);
    assert_eq!(engine.insert(40), 3);
}

#[test]
fn available_indices_are_a_snapshot() {
    let mut engine: OptionStableVec<usize, u64> = OptionStableVec::new();
    engine.insert(1);
    engine.remove(0).unwrap();
    let mut iterator = engine.available_insertion_index_iterator();
    // The iterator owns a copy of the free list taken at call time: the
    // insertion below consumes the live free list, not the copy.
    engine.insert(2);
    assert_eq!(iterator.next(), 0);
    assert_eq!(iterator.next(), 1);
}
