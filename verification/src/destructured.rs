//! The index that keeps only the fields of each record.

use std::hash::Hash;
use vstd::prelude::*;
use crate::key::key_laws;
use crate::lookup::Lookup;
use crate::model::lemma_stretch_one_more;
use crate::model::IndexModel;

verus! {

/// An index that stores, under each key, the fields of the record without
/// the key. As the key is not part of what is stored, a range query gives
/// each match together with its key.
///
/// A range query covers the directory positions from that of its first
/// key to that of its second, both included. It is empty where its first
/// key is ordered after its second.
#[derive(Debug)]
pub struct Index<F, K: Ord + Hash + Clone> {
    inner: Lookup<K, F>,
}

impl<F, K: Ord + Hash + Clone> View for Index<F, K> {
    type V = IndexModel<K, F>;

    closed spec fn view(&self) -> IndexModel<K, F> {
        self.inner@
    }
}

impl<F: Clone, K: Ord + Hash + Clone> Clone for Index<F, K> {
    /// A second index that holds what this one holds.
    fn clone(&self) -> (copy: Self)
        ensures
            copy@ == self@,
    {
        proof {
            use_type_invariant(self);
        }
        Index { inner: self.inner.clone() }
    }
}

/// A match of a range query as a plain pair: the key, and the fields that
/// the reference leads to.
pub open spec fn pair_of<K, F>(found: (K, &F)) -> (K, F) {
    (found.0, *found.1)
}

/// The matches of a range query as plain pairs.
pub open spec fn pairs_of<K, F>(matches: Seq<(K, &F)>) -> Seq<(K, F)> {
    matches.map_values(|found: (K, &F)| pair_of(found))
}

impl<F, K: Ord + Hash + Clone> Index<F, K> {
    /// The keys behave as keys should, the directory is sorted and free of
    /// duplicates, and it holds the keys of the store.
    #[verifier::type_invariant]
    pub open spec fn wf(self) -> bool {
        &&& key_laws::<K>()
        &&& self@.wf()
    }

    /// Creates the index of the records, each given as its key and its
    /// fields. Where a key comes more than once, its last fields stay.
    pub fn new(records: Vec<(K, F)>) -> (index: Self)
        requires
            key_laws::<K>(),
        ensures
            index@.built_from(records@),
    {
        Index { inner: Lookup::build(records) }
    }

    /// The keys of the index, in ascending order, each once.
    pub fn keys(&self) -> (keys: &Vec<K>)
        ensures
            keys@ == self@.directory,
            self@.wf(),
            key_laws::<K>(),
    {
        proof {
            use_type_invariant(self);
        }
        self.inner.keys()
    }

    /// The position in the directory that `key` resolves to: its own where
    /// it is a key of the index, else the one where it would be inserted,
    /// and the last one where that is past the end. The empty index has no
    /// positions.
    pub fn index(&self, key: &K) -> (position: Option<usize>)
        ensures
            self@.directory.len() == 0 ==> position is None,
            self@.directory.len() > 0 ==> (position matches Some(p) && p == self@.position(*key)),
    {
        self.inner.position(key)
    }

    /// The fields kept for the key `key`, if the index has that key.
    pub fn find(&self, key: &K) -> (fields: Vec<&F>)
        ensures
            fields@.unref() == self@.find(*key),
    {
        let mut values: Vec<&F> = Vec::new();
        if let Some(fields) = self.inner.get(key) {
            values.push(fields);
        }
        proof {
            assert(values@.unref() =~= self@.find(*key));
        }
        values
    }

    /// The keys from the position of `start` to the position of `end`, in
    /// ascending order, each with the fields kept for it.
    pub fn find_range(&self, start: &K, end: &K) -> (matches: Vec<(K, &F)>)
        ensures
            pairs_of(matches@) == self@.range(*start, *end),
    {
        proof {
            use_type_invariant(self);
        }
        let mut values: Vec<(K, &F)> = Vec::new();
        let keys = self.inner.keys();
        let ghost model = self@;
        let ghost kept = |k: K| (k, model.store[k]);
        if let Some((lo, hi)) = self.inner.span(start, end) {
            let mut i: usize = lo;
            while i <= hi
                invariant
                    key_laws::<K>(),
                    model == self.inner@,
                    model.wf(),
                    keys@ == model.directory,
                    kept == |k: K| (k, model.store[k]),
                    hi < keys.len(),
                    lo <= i <= hi + 1,
                    pairs_of(values@) == model.directory.subrange(lo as int, i as int).map_values(
                        kept,
                    ),
                decreases hi + 1 - i,
            {
                let ghost before = values@;
                let ghost at = i as int;
                proof {
                    assert(model.directory[at] == keys@[at]);
                    assert(model.directory.contains(keys@[at]));
                    assert(model.store.contains_key(keys@[at]));
                }
                let key = &keys[i];
                if let Some(fields) = self.inner.get(key) {
                    let copy = key.clone();
                    proof {
                        assert(cloned(*key, copy));
                    }
                    values.push((copy, fields));
                }
                i += 1;
                proof {
                    lemma_stretch_one_more(model.directory, lo as int, at, kept);
                    assert(pairs_of(values@) =~= pairs_of(before).push(kept(keys@[at])));
                }
            }
            proof {
                assert(pairs_of(values@) =~= model.range(*start, *end));
            }
        } else {
            proof {
                assert(pairs_of(values@) =~= model.range(*start, *end));
            }
        }
        values
    }
}

} // verus!
