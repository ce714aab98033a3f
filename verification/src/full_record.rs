//! The index that keeps whole records.

use std::hash::Hash;
use vstd::prelude::*;
use crate::key::key_laws;
use crate::lookup::Lookup;
use crate::model::lemma_stretch_one_more;
use crate::model::IndexModel;

verus! {

/// An index that stores each record whole, under its key, and hands out
/// references to the records it stores.
///
/// A range query covers the directory positions from that of its first
/// key to that of its second, both included. It is empty where its first
/// key is ordered after its second.
#[derive(Debug)]
pub struct Index<R, K: Ord + Hash + Clone> {
    inner: Lookup<K, R>,
}

impl<R, K: Ord + Hash + Clone> View for Index<R, K> {
    type V = IndexModel<K, R>;

    closed spec fn view(&self) -> IndexModel<K, R> {
        self.inner@
    }
}

impl<R: Clone, K: Ord + Hash + Clone> Clone for Index<R, K> {
    /// A second index that holds what this one holds.
    fn clone(&self) -> (copy: Self)
        ensures
            copy@ == self@,
    {
        proof {
            use_type_invariant(self);
        }
        Index { inner: self.inner.clone() }
    }
}

impl<R, K: Ord + Hash + Clone> Index<R, K> {
    /// The keys behave as keys should, the directory is sorted and free of
    /// duplicates, and it holds the keys of the store.
    #[verifier::type_invariant]
    pub open spec fn wf(self) -> bool {
        &&& key_laws::<K>()
        &&& self@.wf()
    }

    /// Creates the index of the records, each given with its key. Where a
    /// key comes more than once, its last record stays.
    pub fn new(records: Vec<(K, R)>) -> (index: Self)
        requires
            key_laws::<K>(),
        ensures
            index@.built_from(records@),
    {
        Index { inner: Lookup::build(records) }
    }

    /// The keys of the index, in ascending order, each once.
    pub fn keys(&self) -> (keys: &Vec<K>)
        ensures
            keys@ == self@.directory,
            self@.wf(),
            key_laws::<K>(),
    {
        proof {
            use_type_invariant(self);
        }
        self.inner.keys()
    }

    /// The position in the directory that `key` resolves to: its own where
    /// it is a key of the index, else the one where it would be inserted,
    /// and the last one where that is past the end. The empty index has no
    /// positions.
    pub fn index(&self, key: &K) -> (position: Option<usize>)
        ensures
            self@.directory.len() == 0 ==> position is None,
            self@.directory.len() > 0 ==> (position matches Some(p) && p == self@.position(*key)),
    {
        self.inner.position(key)
    }

    /// The record with the key `key`, if the index has one.
    pub fn find(&self, key: &K) -> (records: Vec<&R>)
        ensures
            records@.unref() == self@.find(*key),
    {
        let mut values: Vec<&R> = Vec::new();
        if let Some(record) = self.inner.get(key) {
            values.push(record);
        }
        proof {
            assert(values@.unref() =~= self@.find(*key));
        }
        values
    }

    /// The records of the keys from the position of `start` to the position
    /// of `end`, in the order of their keys.
    pub fn find_range(&self, start: &K, end: &K) -> (records: Vec<&R>)
        ensures
            records@.unref() == self@.range_values(*start, *end),
    {
        proof {
            use_type_invariant(self);
        }
        let mut values: Vec<&R> = Vec::new();
        let keys = self.inner.keys();
        let ghost model = self@;
        if let Some((lo, hi)) = self.inner.span(start, end) {
            let mut i: usize = lo;
            while i <= hi
                invariant
                    model == self.inner@,
                    model.wf(),
                    keys@ == model.directory,
                    hi < keys.len(),
                    lo <= i <= hi + 1,
                    values@.unref() == model.directory.subrange(lo as int, i as int).map_values(
                        |k: K| model.store[k],
                    ),
                decreases hi + 1 - i,
            {
                let ghost before = values@;
                let ghost at = i as int;
                proof {
                    assert(model.directory[at] == keys@[at]);
                    assert(model.directory.contains(keys@[at]));
                    assert(model.store.contains_key(keys@[at]));
                }
                if let Some(record) = self.inner.get(&keys[i]) {
                    values.push(record);
                }
                i += 1;
                proof {
                    lemma_stretch_one_more(model.directory, lo as int, at, |k: K| model.store[k]);
                    assert(values@.unref() =~= before.unref().push(model.store[keys@[at]]));
                }
            }
            proof {
                assert(values@.unref() =~= model.range_values(*start, *end));
            }
        } else {
            proof {
                assert(values@.unref() =~= model.range_values(*start, *end));
            }
        }
        values
    }
}

} // verus!
