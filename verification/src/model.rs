//! The index as a mathematical value: a mapping from keys to values beside
//! the ascending sequence of its keys.

use vstd::prelude::*;
use crate::directory::count_before;
use crate::directory::strictly_ascending;
use crate::key::key_lt;

verus! {

/// The mapping that is left when the entries are written one after
/// another, each over what its key held before: every key that occurs maps
/// to the value of its last entry.
pub open spec fn last_write<K, V>(entries: Seq<(K, V)>) -> Map<K, V>
    decreases entries.len(),
{
    if entries.len() == 0 {
        Map::empty()
    } else {
        last_write(entries.drop_last()).insert(entries.last().0, entries.last().1)
    }
}

/// `key` is the key of one of the entries.
pub open spec fn has_key<K, V>(entries: Seq<(K, V)>, key: K) -> bool {
    exists|i: int| 0 <= i < entries.len() && (#[trigger] entries[i]).0 == key
}

/// What an index holds.
#[verifier::reject_recursive_types(K)]
pub struct IndexModel<K, V> {
    /// The store: each key with its value.
    pub store: Map<K, V>,
    /// The directory: the keys in ascending order.
    pub directory: Seq<K>,
}

impl<K: Ord, V> IndexModel<K, V> {
    /// The directory is sorted and free of duplicates, and its keys are
    /// those of the store.
    pub open spec fn wf(self) -> bool {
        &&& strictly_ascending(self.directory)
        &&& forall|k: K| self.directory.contains(k) <==> self.store.contains_key(k)
    }

    /// The index is the one that is built from `entries`.
    pub open spec fn built_from(self, entries: Seq<(K, V)>) -> bool {
        &&& self.wf()
        &&& self.store == last_write(entries)
    }

    /// The exact match for `key`: its value, or nothing.
    pub open spec fn find(self, key: K) -> Seq<V> {
        if self.store.contains_key(key) {
            seq![self.store[key]]
        } else {
            Seq::empty()
        }
    }

    /// The directory position that `key` resolves to: its own position
    /// where it is in the directory; else the position where it would be
    /// inserted, and the last position where that lies past the end. The
    /// empty directory has no position.
    pub open spec fn position(self, key: K) -> int {
        let p = count_before(self.directory, key);
        if p < self.directory.len() {
            p as int
        } else {
            self.directory.len() - 1
        }
    }

    /// The keys of a range: those from the position of `start` to the
    /// position of `end`, both included. There are none where the
    /// directory is empty, and none where `start` is ordered after `end`.
    pub open spec fn range_keys(self, start: K, end: K) -> Seq<K> {
        if self.directory.len() == 0 || key_lt(end, start) {
            Seq::empty()
        } else {
            self.directory.subrange(self.position(start), self.position(end) + 1)
        }
    }

    /// The matches of a range: each of its keys with the value kept for it.
    pub open spec fn range(self, start: K, end: K) -> Seq<(K, V)> {
        self.range_keys(start, end).map_values(|k: K| (k, self.store[k]))
    }

    /// The values of a range, in the order of their keys.
    pub open spec fn range_values(self, start: K, end: K) -> Seq<V> {
        self.range_keys(start, end).map_values(|k: K| self.store[k])
    }
}

/// Taking one more key into a stretch of the directory adds what that key
/// maps to at the end of what the stretch maps to.
pub proof fn lemma_stretch_one_more<K, T>(directory: Seq<K>, lo: int, at: int, kept: spec_fn(K) -> T)
    requires
        0 <= lo <= at < directory.len(),
    ensures
        directory.subrange(lo, at + 1).map_values(kept) == directory.subrange(lo, at).map_values(
            kept,
        ).push(kept(directory[at])),
{
    let shorter = directory.subrange(lo, at);
    let longer = directory.subrange(lo, at + 1);
    assert(longer =~= shorter.push(directory[at]));
    assert(longer.map_values(kept) =~= shorter.map_values(kept).push(kept(directory[at])));
}

} // verus!
