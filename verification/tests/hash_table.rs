use rustc_hash::FxHasher;
use sicada::hash_table::{IndexMap, Key, Table};
use std::hash::Hasher;

/// The word of a pair is what the hasher gives for the words of its two parts.
#[test]
fn the_word_of_a_pair_is_hashed_from_both() {
    let mut hasher = FxHasher::default();
    hasher.write_u64(3);
    hasher.write_u64(4);
    assert_eq!((3usize, 4usize).key_word(), hasher.finish());
    assert_ne!((3usize, 4usize).key_word(), (4usize, 3usize).key_word());
    assert_eq!(3usize.key_word(), 3);
}

/// A map holds what was put in last for each number.
#[test]
fn a_map_holds_what_was_put_in_last() {
    let mut map = IndexMap::new();
    assert_eq!(map.get(7), None);
    map.insert(7, 1);
    map.insert(8, 2);
    map.insert(7, 3);
    assert_eq!(map.get(7), Some(3));
    assert_eq!(map.get(8), Some(2));
    assert_eq!(map.get(9), None);
}

/// Values are numbered in the order they are first met, each once.
#[test]
fn values_are_numbered_as_they_are_met() {
    let mut table: Table<(usize, i32)> = Table::new();
    assert_eq!(table.insert((5, -1)), 0);
    assert_eq!(table.insert((5, 1)), 1);
    assert_eq!(table.insert((5, -1)), 0);
    assert_eq!(table.len(), 2);
    assert_eq!(table.find(&(5, 1)), Some(1));
    assert_eq!(table.find(&(6, 1)), None);
    assert_eq!(*table.get(1), (5, 1));
}
