//! The index that keeps only the fields and builds the records anew.

use std::hash::Hash;
use vstd::prelude::*;
use crate::key::key_laws;
use crate::lookup::Lookup;
use crate::model::lemma_stretch_one_more;
use crate::model::IndexModel;

verus! {

/// An index that stores, under each key, the fields of the record without
/// the key, and answers a query with records that it builds from a key and
/// the fields kept for it. The caller hands the builder to the query.
///
/// A range query covers the directory positions from that of its first
/// key to that of its second, both included. It is empty where its first
/// key is ordered after its second.
#[derive(Debug)]
pub struct IndexOwned<K: Ord + Hash + Clone, F> {
    inner: Lookup<K, F>,
}

impl<K: Ord + Hash + Clone, F> View for IndexOwned<K, F> {
    type V = IndexModel<K, F>;

    closed spec fn view(&self) -> IndexModel<K, F> {
        self.inner@
    }
}

impl<K: Ord + Hash + Clone, F: Clone> Clone for IndexOwned<K, F> {
    /// A second index that holds what this one holds.
    fn clone(&self) -> (copy: Self)
        ensures
            copy@ == self@,
    {
        proof {
            use_type_invariant(self);
        }
        IndexOwned { inner: self.inner.clone() }
    }
}

/// The builder can be called with every key and every fields value.
pub open spec fn builds_all<K, F, R, B: Fn(&K, &F) -> R>(build: B) -> bool {
    forall|key: &K, fields: &F| call_requires(build, (key, fields))
}

/// `records` are what the builder made of `pairs`, one record from each
/// pair of a key and its fields, in their order.
pub open spec fn built_by<K, F, R, B: Fn(&K, &F) -> R>(
    build: B,
    pairs: Seq<(K, F)>,
    records: Seq<R>,
) -> bool {
    &&& records.len() == pairs.len()
    &&& forall|i: int|
        0 <= i < pairs.len() ==> call_ensures(build, (&pairs[i].0, &pairs[i].1), #[trigger] records[i])
}

/// The exact match for `key` as a pair: the key with its fields, or
/// nothing.
pub open spec fn found_pair<K: Ord, F>(index: IndexModel<K, F>, key: K) -> Seq<(K, F)> {
    index.find(key).map_values(|fields: F| (key, fields))
}

impl<K: Ord + Hash + Clone, F> IndexOwned<K, F> {
    /// The keys behave as keys should, the directory is sorted and free of
    /// duplicates, and it holds the keys of the store.
    #[verifier::type_invariant]
    pub open spec fn wf(self) -> bool {
        &&& key_laws::<K>()
        &&& self@.wf()
    }

    /// Creates the index of the records, each given as its key and its
    /// fields. Where a key comes more than once, its last fields stay.
    pub fn new(records: Vec<(K, F)>) -> (index: Self)
        requires
            key_laws::<K>(),
        ensures
            index@.built_from(records@),
    {
        IndexOwned { inner: Lookup::build(records) }
    }

    /// The keys of the index, in ascending order, each once.
    pub fn keys(&self) -> (keys: &Vec<K>)
        ensures
            keys@ == self@.directory,
            self@.wf(),
            key_laws::<K>(),
    {
        proof {
            use_type_invariant(self);
        }
        self.inner.keys()
    }

    /// The record built from `key` and the fields kept for it, if the index
    /// has that key.
    pub fn find<R, B: Fn(&K, &F) -> R>(&self, key: &K, build: B) -> (records: Vec<R>)
        requires
            builds_all(build),
        ensures
            built_by(build, found_pair(self@, *key), records@),
    {
        let mut values: Vec<R> = Vec::new();
        if let Some(fields) = self.inner.get(key) {
            values.push(build(key, fields));
        }
        values
    }

    /// The records built from the keys from the position of `start` to the
    /// position of `end`, each with the fields kept for it, in the order of
    /// the keys.
    pub fn find_range<R, B: Fn(&K, &F) -> R>(&self, start: &K, end: &K, build: B) -> (records: Vec<R>)
        requires
            builds_all(build),
        ensures
            built_by(build, self@.range(*start, *end), records@),
    {
        proof {
            use_type_invariant(self);
        }
        let mut values: Vec<R> = Vec::new();
        let keys = self.inner.keys();
        let ghost model = self@;
        let ghost kept = |k: K| (k, model.store[k]);
        if let Some((lo, hi)) = self.inner.span(start, end) {
            let mut i: usize = lo;
            while i <= hi
                invariant
                    builds_all(build),
                    model == self.inner@,
                    model.wf(),
                    keys@ == model.directory,
                    kept == |k: K| (k, model.store[k]),
                    hi < keys.len(),
                    lo <= i <= hi + 1,
                    built_by(
                        build,
                        model.directory.subrange(lo as int, i as int).map_values(kept),
                        values@,
                    ),
                decreases hi + 1 - i,
            {
                let ghost before = values@;
                let ghost at = i as int;
                proof {
                    assert(model.directory[at] == keys@[at]);
                    assert(model.directory.contains(keys@[at]));
                    assert(model.store.contains_key(keys@[at]));
                }
                let key = &keys[i];
                if let Some(fields) = self.inner.get(key) {
                    values.push(build(key, fields));
                }
                i += 1;
                proof {
                    lemma_stretch_one_more(model.directory, lo as int, at, kept);
                    let pairs = model.directory.subrange(lo as int, at + 1).map_values(kept);
                    assert forall|j: int| 0 <= j < pairs.len() implies call_ensures(
                        build,
                        (&pairs[j].0, &pairs[j].1),
                        #[trigger] values@[j],
                    ) by {
                        if j < before.len() {
                            assert(values@[j] == before[j]);
                        }
                    }
                }
            }
            proof {
                assert(model.directory.subrange(lo as int, i as int).map_values(kept)
                    =~= model.range(*start, *end));
            }
        } else {
            proof {
                assert(model.range(*start, *end) =~= Seq::<(K, F)>::empty());
            }
        }
        values
    }
}

/// Where the builder gives every record the key that it was built from,
/// the records of a query carry the keys of the pairs they were built from:
/// the record found for a key carries that key, and the records of a range
/// carry the keys of the range, in their order.
pub proof fn lemma_built_records_keep_their_keys<K, F, R, B: Fn(&K, &F) -> R>(
    build: B,
    key_of: spec_fn(R) -> K,
    pairs: Seq<(K, F)>,
    records: Seq<R>,
)
    requires
        forall|key: &K, fields: &F, record: R| #[trigger]
            call_ensures(build, (key, fields), record) ==> key_of(record) == *key,
        built_by(build, pairs, records),
    ensures
        records.map_values(key_of) == pairs.map_values(|pair: (K, F)| pair.0),
{
    assert(records.map_values(key_of) =~= pairs.map_values(|pair: (K, F)| pair.0));
}

} // verus!
