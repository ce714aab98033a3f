//! The index over a table of records that it does not own.

use std::collections::HashMap;
use std::hash::Hash;
use vstd::prelude::*;
use crate::directory::lemma_push_contains;
use crate::key::key_laws;
use crate::laws::lemma_last_write_keys;
use crate::lookup::Lookup;
use crate::model::has_key;
use crate::model::last_write;
use crate::model::lemma_stretch_one_more;
use crate::model::IndexModel;

verus! {

/// An index that is built from the records of a table which stays with its
/// owner: it stores a clone of each record, under the record's key, and
/// hands out references into its own store.
///
/// A range query covers the directory positions from that of its first
/// key to that of its second, both included. It is empty where its first
/// key is ordered after its second.
#[derive(Debug)]
pub struct Index<R, K: Ord + Hash + Clone> {
    inner: Lookup<K, R>,
}

impl<R, K: Ord + Hash + Clone> View for Index<R, K> {
    type V = IndexModel<K, R>;

    closed spec fn view(&self) -> IndexModel<K, R> {
        self.inner@
    }
}

impl<R: Clone, K: Ord + Hash + Clone> Clone for Index<R, K> {
    /// A second index that holds what this one holds.
    fn clone(&self) -> (copy: Self)
        ensures
            copy@ == self@,
    {
        proof {
            use_type_invariant(self);
        }
        Index { inner: self.inner.clone() }
    }
}

/// A row of the table as a plain pair: the key, and the record that the
/// reference leads to.
pub open spec fn row_of<K, R>(row: (K, &R)) -> (K, R) {
    (row.0, *row.1)
}

/// The rows of the table as plain pairs.
pub open spec fn rows_of<K, R>(table: Seq<(K, &R)>) -> Seq<(K, R)> {
    table.map_values(|row: (K, &R)| row_of(row))
}

/// The index is the one that is built from clones of the records of
/// `rows`: it has the keys of the rows, and keeps under each key a clone of
/// the last record with that key.
pub open spec fn built_from_clones<K: Ord, R: Clone>(
    index: IndexModel<K, R>,
    rows: Seq<(K, R)>,
) -> bool {
    &&& index.wf()
    &&& forall|k: K| index.store.contains_key(k) <==> has_key(rows, k)
    &&& forall|k: K| #[trigger]
        index.store.contains_key(k) ==> cloned(last_write(rows)[k], index.store[k])
}

/// Where a clone of a record is that record, the index built from clones
/// of the rows is the index built from the rows.
pub proof fn lemma_faithful_clones<K: Ord, R: Clone>(index: IndexModel<K, R>, rows: Seq<(K, R)>)
    requires
        built_from_clones(index, rows),
        forall|a: R, b: R| cloned(a, b) ==> a == b,
    ensures
        index.built_from(rows),
{
    assert forall|k: K| index.store.contains_key(k) <==> last_write(rows).contains_key(k) by {
        lemma_last_write_keys(rows, k);
    }
    assert(index.store =~= last_write(rows));
}

impl<R: Clone, K: Ord + Hash + Clone> Index<R, K> {
    /// Creates the index of the rows of a table, each given as its key and
    /// a reference to its record. The index keeps a clone of the record.
    /// Where a key comes more than once, the clone of its last record
    /// stays.
    pub fn new(table: Vec<(K, &R)>) -> (index: Self)
        requires
            key_laws::<K>(),
        ensures
            built_from_clones(index@, rows_of(table@)),
    {
        let ghost rows = rows_of(table@);
        let mut store: HashMap<K, R> = HashMap::with_capacity(table.len());
        let mut raw: Vec<K> = Vec::with_capacity(table.len());
        for row in it: table
            invariant
                key_laws::<K>(),
                rows == rows_of(it.seq()),
                forall|k: K| raw@.contains(k) <==> store@.contains_key(k),
                store@.dom() == last_write(rows.take(it.index() as int)).dom(),
                forall|k: K| #[trigger]
                    store@.contains_key(k) ==> cloned(
                        last_write(rows.take(it.index() as int))[k],
                        store@[k],
                    ),
        {
            let ghost i = it.index() as int;
            let ghost before = raw@;
            let (key, record) = row;
            proof {
                assert(rows[i] == row_of(it.seq()[i]));
                assert(rows.take(i + 1).drop_last() =~= rows.take(i));
                assert(rows.take(i + 1).last() == (key, *record));
            }
            let copy = key.clone();
            proof {
                assert(cloned(key, copy));
            }
            raw.push(copy);
            store.insert(key, record.clone());
            proof {
                assert forall|k: K| raw@.contains(k) <==> store@.contains_key(k) by {
                    lemma_push_contains(before, key, k);
                }
                assert(store@.dom() =~= last_write(rows.take(i + 1)).dom());
            }
        }
        proof {
            assert(rows.take(rows.len() as int) =~= rows);
            assert forall|k: K| store@.contains_key(k) <==> has_key(rows, k) by {
                lemma_last_write_keys(rows, k);
            }
        }
        Index { inner: Lookup::assemble(store, raw) }
    }
}

impl<R, K: Ord + Hash + Clone> Index<R, K> {
    /// The keys behave as keys should, the directory is sorted and free of
    /// duplicates, and it holds the keys of the store.
    #[verifier::type_invariant]
    pub open spec fn wf(self) -> bool {
        &&& key_laws::<K>()
        &&& self@.wf()
    }

    /// The keys of the index, in ascending order, each once.
    pub fn keys(&self) -> (keys: &Vec<K>)
        ensures
            keys@ == self@.directory,
            self@.wf(),
            key_laws::<K>(),
    {
        proof {
            use_type_invariant(self);
        }
        self.inner.keys()
    }

    /// The record kept for the key `key`, if the index has that key.
    pub fn find(&self, key: &K) -> (records: Vec<&R>)
        ensures
            records@.unref() == self@.find(*key),
    {
        let mut values: Vec<&R> = Vec::new();
        if let Some(record) = self.inner.get(key) {
            values.push(record);
        }
        proof {
            assert(values@.unref() =~= self@.find(*key));
        }
        values
    }

    /// The records of the keys from the position of `start` to the position
    /// of `end`, in the order of their keys.
    pub fn find_range(&self, start: &K, end: &K) -> (records: Vec<&R>)
        ensures
            records@.unref() == self@.range_values(*start, *end),
    {
        proof {
            use_type_invariant(self);
        }
        let mut values: Vec<&R> = Vec::new();
        let keys = self.inner.keys();
        let ghost model = self@;
        if let Some((lo, hi)) = self.inner.span(start, end) {
            let mut i: usize = lo;
            while i <= hi
                invariant
                    model == self.inner@,
                    model.wf(),
                    keys@ == model.directory,
                    hi < keys.len(),
                    lo <= i <= hi + 1,
                    values@.unref() == model.directory.subrange(lo as int, i as int).map_values(
                        |k: K| model.store[k],
                    ),
                decreases hi + 1 - i,
            {
                let ghost before = values@;
                let ghost at = i as int;
                proof {
                    assert(model.directory[at] == keys@[at]);
                    assert(model.directory.contains(keys@[at]));
                    assert(model.store.contains_key(keys@[at]));
                }
                if let Some(record) = self.inner.get(&keys[i]) {
                    values.push(record);
                }
                i += 1;
                proof {
                    lemma_stretch_one_more(model.directory, lo as int, at, |k: K| model.store[k]);
                    assert(values@.unref() =~= before.unref().push(model.store[keys@[at]]));
                }
            }
            proof {
                assert(values@.unref() =~= model.range_values(*start, *end));
            }
        } else {
            proof {
                assert(values@.unref() =~= model.range_values(*start, *end));
            }
        }
        values
    }
}

} // verus!
