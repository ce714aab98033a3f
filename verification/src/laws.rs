//! What holds of every index, stated over its model.

use std::hash::Hash;
use vstd::prelude::*;
use crate::directory::count_before;
use crate::directory::lemma_count_before_member;
use crate::directory::lemma_count_before_monotonic;
use crate::directory::lemma_count_before_splits;
use crate::directory::lemma_strictly_ascending_no_duplicates;
use crate::directory::lemma_strictly_ascending_unique;
use crate::directory::strictly_ascending;
use crate::key::key_laws;
use crate::key::key_le;
use crate::key::key_lt;
use crate::key::lemma_lt_transitive;
use crate::key::lemma_trichotomy;
use crate::model::has_key;
use crate::model::last_write;
use crate::model::IndexModel;

verus! {

/// The entry at `i` is the last one with its key.
pub open spec fn is_last_of_its_key<K, V>(entries: Seq<(K, V)>, i: int) -> bool {
    &&& 0 <= i < entries.len()
    &&& forall|j: int| i < j < entries.len() ==> (#[trigger] entries[j]).0 != entries[i].0
}

/// Writing the entries one after another leaves exactly the keys of the
/// entries.
pub proof fn lemma_last_write_keys<K, V>(entries: Seq<(K, V)>, key: K)
    ensures
        last_write(entries).contains_key(key) <==> has_key(entries, key),
    decreases entries.len(),
{
    if entries.len() > 0 {
        let front = entries.drop_last();
        lemma_last_write_keys(front, key);
        if has_key(entries, key) {
            let i = choose|i: int| 0 <= i < entries.len() && (#[trigger] entries[i]).0 == key;
            if i < front.len() {
                assert(front[i].0 == key);
            }
        }
        if has_key(front, key) {
            let i = choose|i: int| 0 <= i < front.len() && (#[trigger] front[i]).0 == key;
            assert(entries[i].0 == key);
        }
        if entries.last().0 == key {
            assert(entries[entries.len() - 1].0 == key);
        }
    }
}

/// Writing the entries one after another leaves, under each key, the value
/// of the last entry with that key.
pub proof fn lemma_last_write_value<K, V>(entries: Seq<(K, V)>, i: int)
    requires
        is_last_of_its_key(entries, i),
    ensures
        last_write(entries).contains_key(entries[i].0),
        last_write(entries)[entries[i].0] == entries[i].1,
    decreases entries.len(),
{
    let front = entries.drop_last();
    if i < entries.len() - 1 {
        assert(entries[entries.len() - 1].0 != entries[i].0);
        assert(front[i] == entries[i]);
        assert(is_last_of_its_key(front, i)) by {
            assert forall|j: int| i < j < front.len() implies (#[trigger] front[j]).0
                != front[i].0 by {
                assert(front[j] == entries[j]);
            }
        }
        lemma_last_write_value(front, i);
    }
}

/// The directory of a built index is the sorted list of the distinct keys
/// of its entries: it is ascending, holds no key twice, and holds a key
/// where, and only where, an entry has it. No other sequence is all that.
/// It has as many keys as the store.
pub proof fn lemma_directory_is_sorted_key_set<K: Ord + Hash + Clone, V>(
    index: IndexModel<K, V>,
    entries: Seq<(K, V)>,
)
    requires
        key_laws::<K>(),
        index.built_from(entries),
    ensures
        strictly_ascending(index.directory),
        index.directory.no_duplicates(),
        forall|k: K| index.directory.contains(k) <==> has_key(entries, k),
        forall|other: Seq<K>|
            strictly_ascending(other) && (forall|k: K| other.contains(k) <==> has_key(entries, k))
                ==> other == index.directory,
        index.directory.len() == index.store.dom().len(),
{
    lemma_strictly_ascending_no_duplicates(index.directory);
    index.directory.unique_seq_to_set();
    assert(index.directory.to_set() =~= index.store.dom());
    assert forall|k: K| index.directory.contains(k) <==> has_key(entries, k) by {
        lemma_last_write_keys(entries, k);
    }
    assert forall|other: Seq<K>|
        strictly_ascending(other) && (forall|k: K|
            other.contains(k) <==> has_key(entries, k)) implies other == index.directory by {
        lemma_strictly_ascending_unique(other, index.directory);
    }
}

/// `find` on a built index gives the value of the last entry with the key,
/// and nothing for a key that no entry has.
pub proof fn lemma_find_is_last_write<K: Ord, V>(
    index: IndexModel<K, V>,
    entries: Seq<(K, V)>,
    key: K,
)
    requires
        index.built_from(entries),
    ensures
        !has_key(entries, key) ==> index.find(key) == Seq::<V>::empty(),
        forall|i: int|
            is_last_of_its_key(entries, i) && (#[trigger] entries[i]).0 == key ==> index.find(key)
                == seq![entries[i].1],
{
    lemma_last_write_keys(entries, key);
    assert forall|i: int|
        is_last_of_its_key(entries, i) && (#[trigger] entries[i]).0 == key implies index.find(key)
        == seq![entries[i].1] by {
        lemma_last_write_value(entries, i);
    }
}

/// Every key resolves to a position of the directory, if it has one: a key
/// before all keys to the first, a key after all keys to the last, a key of
/// the directory to its own.
pub proof fn lemma_position_clamps<K: Ord + Hash + Clone, V>(index: IndexModel<K, V>, key: K)
    requires
        key_laws::<K>(),
        index.wf(),
        index.directory.len() > 0,
    ensures
        0 <= index.position(key) < index.directory.len(),
        key_le(key, index.directory.first()) ==> index.position(key) == 0,
        key_lt(index.directory.last(), key) ==> index.position(key) == index.directory.len() - 1,
        forall|i: int|
            0 <= i < index.directory.len() && index.directory[i] == key ==> index.position(key)
                == i,
{
    let dir = index.directory;
    lemma_count_before_splits(dir, key);
    let c = count_before(dir, key) as int;
    if key_le(key, dir.first()) {
        if c > 0 {
            assert(key_lt(dir[0], key));
            lemma_trichotomy(dir[0], key);
        }
    }
    if key_lt(dir.last(), key) {
        if c < dir.len() {
            assert(!key_lt(dir[dir.len() - 1], key));
        }
    }
    assert forall|i: int| 0 <= i < dir.len() && dir[i] == key implies index.position(key) == i by {
        lemma_count_before_member(dir, i);
    }
}

/// Where the directory has keys and `start` is not ordered after `end`,
/// the two resolve to positions of the directory, that of `start` not after
/// that of `end`.
pub proof fn lemma_span<K: Ord + Hash + Clone, V>(index: IndexModel<K, V>, start: K, end: K)
    requires
        key_laws::<K>(),
        index.wf(),
        index.directory.len() > 0,
        !key_lt(end, start),
    ensures
        0 <= index.position(start) <= index.position(end) < index.directory.len(),
        index.range_keys(start, end).len() == index.position(end) - index.position(start) + 1,
{
    lemma_trichotomy(start, end);
    lemma_count_before_monotonic(index.directory, start, end);
    lemma_position_clamps(index, start);
    lemma_position_clamps(index, end);
}

/// A range query gives keys of the directory in ascending order, none of
/// them twice, whatever its two keys are; none at all where its first key
/// is ordered after its second.
pub proof fn lemma_range_is_ascending<K: Ord + Hash + Clone, V>(
    index: IndexModel<K, V>,
    start: K,
    end: K,
)
    requires
        key_laws::<K>(),
        index.wf(),
    ensures
        strictly_ascending(index.range_keys(start, end)),
        index.range_keys(start, end).no_duplicates(),
        forall|k: K| index.range_keys(start, end).contains(k) ==> index.store.contains_key(k),
        index.range(start, end).len() == index.range_keys(start, end).len(),
        index.range_values(start, end).len() == index.range_keys(start, end).len(),
        key_lt(end, start) ==> index.range_keys(start, end).len() == 0,
{
    let dir = index.directory;
    let keys = index.range_keys(start, end);
    if keys.len() > 0 {
        lemma_span(index, start, end);
        let lo = index.position(start);
        assert forall|i: int, j: int| 0 <= i < j < keys.len() implies key_lt(keys[i], keys[j]) by {
            assert(keys[i] == dir[lo + i]);
            assert(keys[j] == dir[lo + j]);
        }
        assert forall|k: K| keys.contains(k) implies index.store.contains_key(k) by {
            let i = choose|i: int| 0 <= i < keys.len() && keys[i] == k;
            assert(dir[lo + i] == k);
            assert(dir.contains(k));
        }
    }
    lemma_strictly_ascending_no_duplicates(keys);
}

/// A range query between two keys of the index gives exactly the keys that
/// lie between the two, both included, in ascending order and each once,
/// and with each key the value kept for it.
pub proof fn lemma_range_between_keys<K: Ord + Hash + Clone, V>(
    index: IndexModel<K, V>,
    start: K,
    end: K,
)
    requires
        key_laws::<K>(),
        index.wf(),
        index.store.contains_key(start),
        index.store.contains_key(end),
    ensures
        strictly_ascending(index.range_keys(start, end)),
        forall|k: K|
            index.range_keys(start, end).contains(k) <==> index.store.contains_key(k) && key_le(
                start,
                k,
            ) && key_le(k, end),
        index.range_values(start, end).len() == index.range_keys(start, end).len(),
        forall|i: int|
            0 <= i < index.range_keys(start, end).len() ==> #[trigger] index.range_values(
                start,
                end,
            )[i] == index.store[index.range_keys(start, end)[i]],
{
    let dir = index.directory;
    let keys = index.range_keys(start, end);
    lemma_range_is_ascending(index, start, end);
    assert(dir.contains(start));
    assert(dir.contains(end));
    let lo = choose|i: int| 0 <= i < dir.len() && dir[i] == start;
    let hi = choose|i: int| 0 <= i < dir.len() && dir[i] == end;
    lemma_position_clamps(index, start);
    lemma_position_clamps(index, end);
    assert(index.position(start) == lo);
    assert(index.position(end) == hi);
    lemma_trichotomy(start, end);
    if !key_lt(end, start) {
        lemma_span(index, start, end);
    }
    assert forall|k: K|
        keys.contains(k) <==> index.store.contains_key(k) && key_le(start, k) && key_le(
            k,
            end,
        ) by {
        if keys.contains(k) {
            let i = choose|i: int| 0 <= i < keys.len() && keys[i] == k;
            assert(dir[lo + i] == k);
            assert(dir.contains(k));
        }
        if index.store.contains_key(k) && key_le(start, k) && key_le(k, end) {
            lemma_trichotomy(start, k);
            lemma_trichotomy(k, end);
            if key_lt(start, k) && key_lt(k, end) {
                lemma_lt_transitive(start, k, end);
            }
            assert(!key_lt(end, start));
            assert(dir.contains(k));
            let p = choose|p: int| 0 <= p < dir.len() && dir[p] == k;
            if p < lo {
                assert(key_lt(dir[p], dir[lo]));
            }
            if hi < p {
                assert(key_lt(dir[hi], dir[p]));
            }
            assert(keys[p - lo] == k);
        }
    }
}

/// A range query from a key of the index to that same key gives what the
/// exact lookup of the key gives.
pub proof fn lemma_range_of_one_key_is_find<K: Ord + Hash + Clone, V>(
    index: IndexModel<K, V>,
    key: K,
)
    requires
        key_laws::<K>(),
        index.wf(),
        index.store.contains_key(key),
    ensures
        index.range_keys(key, key) == seq![key],
        index.range_values(key, key) == index.find(key),
{
    let dir = index.directory;
    assert(dir.contains(key));
    let p = choose|i: int| 0 <= i < dir.len() && dir[i] == key;
    lemma_trichotomy(key, key);
    lemma_position_clamps(index, key);
    assert(index.range_keys(key, key) =~= seq![key]);
    assert(index.range_values(key, key) =~= index.find(key));
}

/// A range query that ends after the last key reaches the last key: it
/// gives the directory from the position of its first key on, and so never
/// nothing. One that starts at or before the first key gives every key;
/// one that starts after the last key gives the last key.
pub proof fn lemma_range_past_the_ends<K: Ord + Hash + Clone, V>(
    index: IndexModel<K, V>,
    start: K,
    end: K,
)
    requires
        key_laws::<K>(),
        index.wf(),
        index.directory.len() > 0,
        key_lt(index.directory.last(), end),
        !key_lt(end, start),
    ensures
        index.range_keys(start, end) == index.directory.subrange(
            index.position(start),
            index.directory.len() as int,
        ),
        index.range_keys(start, end).len() > 0,
        key_le(start, index.directory.first()) ==> index.range_keys(start, end) == index.directory,
        key_lt(index.directory.last(), start) ==> index.range_keys(start, end)
            == seq![index.directory.last()],
{
    let dir = index.directory;
    lemma_span(index, start, end);
    lemma_position_clamps(index, start);
    lemma_position_clamps(index, end);
    if key_le(start, dir.first()) {
        assert(index.range_keys(start, end) =~= dir);
    }
    if key_lt(dir.last(), start) {
        assert(index.range_keys(start, end) =~= seq![dir.last()]);
    }
}

/// The index that is built from no entries has no keys, and every query on
/// it comes back empty.
pub proof fn lemma_empty_index<K: Ord, V>(index: IndexModel<K, V>)
    requires
        index.built_from(Seq::<(K, V)>::empty()),
    ensures
        index.directory == Seq::<K>::empty(),
        forall|key: K| index.find(key) == Seq::<V>::empty(),
        forall|start: K, end: K| index.range_keys(start, end) == Seq::<K>::empty(),
        forall|start: K, end: K| index.range(start, end) == Seq::<(K, V)>::empty(),
        forall|start: K, end: K| index.range_values(start, end) == Seq::<V>::empty(),
{
    if index.directory.len() > 0 {
        assert(index.directory.contains(index.directory[0]));
    }
    assert(index.directory =~= Seq::<K>::empty());
    assert forall|start: K, end: K| index.range(start, end) == Seq::<(K, V)>::empty() by {
        assert(index.range(start, end) =~= Seq::<(K, V)>::empty());
    }
    assert forall|start: K, end: K| index.range_values(start, end) == Seq::<V>::empty() by {
        assert(index.range_values(start, end) =~= Seq::<V>::empty());
    }
}

} // verus!
