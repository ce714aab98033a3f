//! The store and the directory together: what the index variants share.

use std::collections::HashMap;
use std::hash::Hash;
use vstd::prelude::*;
use crate::directory::distinct;
use crate::directory::lemma_count_before_monotonic;
use crate::directory::lemma_count_before_splits;
use crate::directory::lemma_push_contains;
use crate::directory::search;
use crate::directory::sort_keys;
use crate::key::key_laws;
use crate::key::key_lt;
use crate::key::lemma_trichotomy;
use crate::key::rank;
use crate::key::Rank;
use crate::model::last_write;
use crate::model::IndexModel;

verus! {

/// A hash store with the sorted directory of its keys. It is built once
/// and only read from then on.
#[derive(Debug)]
pub struct Lookup<K: Ord + Hash + Clone, V> {
    store: HashMap<K, V>,
    directory: Vec<K>,
}

impl<K: Ord + Hash + Clone, V> View for Lookup<K, V> {
    type V = IndexModel<K, V>;

    closed spec fn view(&self) -> IndexModel<K, V> {
        IndexModel { store: self.store@, directory: self.directory@ }
    }
}

impl<K: Ord + Hash + Clone, V: Clone> Clone for Lookup<K, V> {
    /// A second index that holds what this one holds.
    fn clone(&self) -> (copy: Self)
        ensures
            copy@ == self@,
    {
        proof {
            use_type_invariant(self);
        }
        let store = self.store.clone();
        let directory = self.directory.clone();
        proof {
            assert forall|i: int| 0 <= i < directory@.len() implies directory@[i]
                == self.directory@[i] by {
                assert(cloned(self.directory@[i], directory@[i]));
            }
            assert(directory@ =~= self.directory@);
        }
        Lookup { store, directory }
    }
}

impl<K: Ord + Hash + Clone, V> Lookup<K, V> {
    /// The keys behave as keys should, the directory is sorted and free of
    /// duplicates, and it holds the keys of the store.
    #[verifier::type_invariant]
    pub open spec fn wf(self) -> bool {
        &&& key_laws::<K>()
        &&& self@.wf()
    }

    /// Puts a store and the keys that were written to it together: the
    /// directory is the sorted list of these keys, each taken once.
    pub(crate) fn assemble(store: HashMap<K, V>, raw: Vec<K>) -> (r: Self)
        requires
            key_laws::<K>(),
            forall|k: K| raw@.contains(k) <==> store@.contains_key(k),
        ensures
            r.wf(),
            r@.store == store@,
    {
        let mut keys = raw;
        sort_keys(&mut keys);
        proof {
            keys@.to_multiset_ensures();
            raw@.to_multiset_ensures();
            assert forall|k: K| keys@.contains(k) <==> store@.contains_key(k) by {
                assert(keys@.contains(k) <==> keys@.to_multiset().count(k) > 0);
                assert(raw@.contains(k) <==> raw@.to_multiset().count(k) > 0);
            }
        }
        let ghost sorted = keys@;
        let directory = distinct(keys);
        proof {
            assert forall|k: K| directory@.contains(k) <==> store@.contains_key(k) by {
                assert(directory@.contains(k) <==> sorted.contains(k));
            }
        }
        Lookup { store, directory }
    }

    /// Builds the store and the directory from the entries, in one pass
    /// over them. Of two entries with one key the later one stays.
    pub fn build(entries: Vec<(K, V)>) -> (r: Self)
        requires
            key_laws::<K>(),
        ensures
            r@.built_from(entries@),
    {
        let ghost all = entries@;
        let mut store: HashMap<K, V> = HashMap::with_capacity(entries.len());
        let mut raw: Vec<K> = Vec::with_capacity(entries.len());
        for entry in it: entries
            invariant
                key_laws::<K>(),
                it.seq() == all,
                store@ == last_write(all.take(it.index() as int)),
                forall|k: K| raw@.contains(k) <==> store@.contains_key(k),
        {
            let ghost i = it.index() as int;
            let ghost before = raw@;
            let (key, value) = entry;
            let copy = key.clone();
            proof {
                assert(cloned(key, copy));
            }
            raw.push(copy);
            store.insert(key, value);
            proof {
                assert(all.take(i + 1).drop_last() =~= all.take(i));
                assert(raw@ == before.push(key));
                assert forall|k: K| raw@.contains(k) <==> store@.contains_key(k) by {
                    lemma_push_contains(before, key, k);
                }
            }
        }
        proof {
            assert(all.take(all.len() as int) =~= all);
        }
        Self::assemble(store, raw)
    }

    /// The directory.
    pub fn keys(&self) -> (r: &Vec<K>)
        ensures
            r@ == self@.directory,
    {
        &self.directory
    }

    /// The value kept for `key`, if there is one.
    pub fn get(&self, key: &K) -> (r: Option<&V>)
        ensures
            r == if self@.store.contains_key(*key) {
                Some(&self@.store[*key])
            } else {
                None
            },
    {
        proof {
            use_type_invariant(self);
        }
        self.store.get(key)
    }

    /// The directory position that `key` resolves to, by binary search;
    /// `None` where the directory is empty.
    pub fn position(&self, key: &K) -> (r: Option<usize>)
        ensures
            self@.directory.len() == 0 ==> r is None,
            self@.directory.len() > 0 ==> (r matches Some(p) && p == self@.position(*key)),
    {
        proof {
            use_type_invariant(self);
        }
        if self.directory.len() == 0 {
            return None;
        }
        match search(&self.directory, key) {
            Ok(i) => Some(i),
            Err(i) => {
                if i >= self.directory.len() {
                    Some(self.directory.len() - 1)
                } else {
                    Some(i)
                }
            },
        }
    }

    /// The directory positions that a range from `start` to `end` covers,
    /// the first and the last: those that the two keys resolve to. `None`
    /// where the directory is empty or `start` is ordered after `end`.
    pub fn span(&self, start: &K, end: &K) -> (r: Option<(usize, usize)>)
        ensures
            r is None <==> self@.directory.len() == 0 || key_lt(*end, *start),
            r matches Some((lo, hi)) ==> lo == self@.position(*start) && hi == self@.position(*end)
                && lo <= hi < self@.directory.len(),
    {
        proof {
            use_type_invariant(self);
        }
        if let Rank::After = rank(start, end) {
            return None;
        }
        match (self.position(start), self.position(end)) {
            (Some(lo), Some(hi)) => {
                proof {
                    lemma_trichotomy(*start, *end);
                    lemma_count_before_monotonic(self@.directory, *start, *end);
                    lemma_count_before_splits(self@.directory, *end);
                }
                Some((lo, hi))
            },
            _ => None,
        }
    }
}

} // verus!
