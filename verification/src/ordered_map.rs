//! The insertion-ordered map from keys to node indices, and its model.
//!
//! The map is `indexmap::IndexMap`. Verus does not look inside it: what it
//! holds is named by [`map_entries`], and each method that the library calls
//! has a wrapper whose contract says what the method does to the entries.

use vstd::prelude::*;

use indexmap::IndexMap;
use std::collections::hash_map::RandomState;

use crate::KeyType;

verus! {

#[verifier::external_type_specification]
#[verifier::external_body]
#[verifier::reject_recursive_types(K)]
#[verifier::reject_recursive_types(V)]
#[verifier::reject_recursive_types(S)]
pub struct ExIndexMap<K, V, S>(IndexMap<K, V, S>);

/// The map from keys to node indices that keeps the order of insertion.
pub type KeyMap = IndexMap<KeyType, usize, RandomState>;

/// An entry of a [`KeyMap`]: a key and the index stored under it.
pub type Entry = (KeyType, usize);

/// The entries of a map, in the order in which the map hands them out.
pub uninterp spec fn map_entries(map: IndexMap<KeyType, usize, RandomState>) -> Seq<Entry>;

/// The position of the first entry with the given key.
pub open spec fn position_of(entries: Seq<Entry>, key: KeyType) -> Option<int>
    decreases entries.len(),
{
    if entries.len() == 0 {
        None
    } else {
        match position_of(entries.drop_last(), key) {
            Some(i) => Some(i),
            None => if entries.last().0 == key {
                Some(entries.len() - 1)
            } else {
                None
            },
        }
    }
}

/// The index stored under the given key.
pub open spec fn value_of(entries: Seq<Entry>, key: KeyType) -> Option<usize> {
    match position_of(entries, key) {
        Some(i) => Some(entries[i].1),
        None => None,
    }
}

/// The entries after `key` has been given `value`: an entry with that key
/// keeps its place and takes the value, a new key goes to the end.
pub open spec fn with_entry(entries: Seq<Entry>, key: KeyType, value: usize) -> Seq<Entry> {
    match position_of(entries, key) {
        Some(i) => entries.update(i, (key, value)),
        None => entries.push((key, value)),
    }
}

/// No two entries have the same key.
pub open spec fn keys_distinct(entries: Seq<Entry>) -> bool {
    forall|i: int, j: int|
        0 <= i < j < entries.len() ==> (#[trigger] entries[i]).0 != (#[trigger] entries[j]).0
}

/// `position_of` finds a key exactly where an entry has it.
pub proof fn lemma_position_of(entries: Seq<Entry>, key: KeyType)
    ensures
        match position_of(entries, key) {
            Some(i) => 0 <= i < entries.len() && entries[i].0 == key && forall|j: int|
                0 <= j < i ==> (#[trigger] entries[j]).0 != key,
            None => forall|j: int| 0 <= j < entries.len() ==> (#[trigger] entries[j]).0 != key,
        },
    decreases entries.len(),
{
    if entries.len() > 0 {
        let front = entries.drop_last();
        lemma_position_of(front, key);
        assert forall|j: int| 0 <= j < front.len() implies #[trigger] entries[j] == front[j] by {}
    }
}

/// Makes an empty map with `IndexMap::new`.
///
/// Trusted: a new map has no entries.
#[verifier::external_body]
pub(crate) fn map_new() -> (map: KeyMap)
    ensures
        map_entries(map) == Seq::<Entry>::empty(),
{
    IndexMap::new()
}

/// Counts the entries with `IndexMap::len`.
///
/// Trusted: the result is the number of entries.
#[verifier::external_body]
pub(crate) fn map_len(map: &KeyMap) -> (len: usize)
    ensures
        len == map_entries(*map).len(),
{
    map.len()
}

/// Looks a key up with `IndexMap::get`.
///
/// Trusted: the result is the index stored under the key, if the map has
/// the key.
#[verifier::external_body]
pub(crate) fn map_get(map: &KeyMap, key: KeyType) -> (value: Option<usize>)
    ensures
        value == value_of(map_entries(*map), key),
{
    map.get(&key).copied()
}

/// Reads the entry at a position with `IndexMap::get_index`.
///
/// Trusted: positions below the length hold the entries in order, the others
/// hold nothing.
#[verifier::external_body]
pub(crate) fn map_get_index(map: &KeyMap, index: usize) -> (entry: Option<Entry>)
    ensures
        entry == if index < map_entries(*map).len() {
            Some(map_entries(*map)[index as int])
        } else {
            None
        },
{
    map.get_index(index).map(|(key, value)| (*key, *value))
}

/// Stores an index under a key with `IndexMap::insert`.
///
/// Trusted: a key that the map has keeps its place and takes the new index,
/// and the index it had is returned; a new key goes last, and nothing is
/// returned.
#[verifier::external_body]
pub(crate) fn map_insert(map: &mut KeyMap, key: KeyType, value: usize) -> (previous: Option<usize>)
    ensures
        map_entries(*final(map)) == with_entry(map_entries(*old(map)), key, value),
        previous == value_of(map_entries(*old(map)), key),
{
    map.insert(key, value)
}

} // verus!
