//! The sorted key directory: an ascending sequence of distinct keys, and
//! the binary search that resolves a key to a position in it.

use std::hash::Hash;
use vstd::prelude::*;
use crate::key::key_laws;
use crate::key::key_le;
use crate::key::key_lt;
use crate::key::lemma_lt_transitive;
use crate::key::lemma_trichotomy;
use crate::key::rank;
use crate::key::Rank;

verus! {

/// Every key is ordered before, or equals, the keys that follow it.
pub open spec fn ascending<K: Ord>(s: Seq<K>) -> bool {
    forall|i: int, j: int| 0 <= i < j < s.len() ==> key_le(s[i], s[j])
}

/// Every key is ordered strictly before the keys that follow it: the
/// sequence is sorted and holds no key twice.
pub open spec fn strictly_ascending<K: Ord>(s: Seq<K>) -> bool {
    forall|i: int, j: int| 0 <= i < j < s.len() ==> key_lt(s[i], s[j])
}

/// How many keys of `s` are ordered strictly before `key`. In an ascending
/// sequence this is the position of `key` if it is there, and the position
/// where it would have to be inserted if it is not.
pub open spec fn count_before<K: Ord>(s: Seq<K>, key: K) -> nat
    decreases s.len(),
{
    if s.len() == 0 {
        0
    } else {
        count_before(s.drop_last(), key) + if key_lt(s.last(), key) {
            1nat
        } else {
            0nat
        }
    }
}

/// A position that has only keys before `key` to its left, and none of them
/// from there on, is the number of keys before `key`.
pub proof fn lemma_count_before_is_split<K: Ord>(s: Seq<K>, key: K, p: int)
    requires
        0 <= p <= s.len(),
        forall|j: int| 0 <= j < p ==> key_lt(s[j], key),
        forall|j: int| p <= j < s.len() ==> !key_lt(s[j], key),
    ensures
        count_before(s, key) == p,
    decreases s.len(),
{
    if s.len() > 0 {
        let front = s.drop_last();
        if p == s.len() {
            lemma_count_before_is_split(front, key, p - 1);
        } else {
            lemma_count_before_is_split(front, key, p);
        }
    }
}

/// In a strictly ascending sequence the keys before `key` are exactly those
/// at the positions below `count_before(s, key)`.
pub proof fn lemma_count_before_splits<K: Ord + Hash + Clone>(s: Seq<K>, key: K)
    requires
        key_laws::<K>(),
        strictly_ascending(s),
    ensures
        count_before(s, key) <= s.len(),
        forall|j: int| 0 <= j < count_before(s, key) ==> key_lt(s[j], key),
        forall|j: int| count_before(s, key) <= j < s.len() ==> !key_lt(s[j], key),
    decreases s.len(),
{
    if s.len() > 0 {
        let front = s.drop_last();
        assert(strictly_ascending(front)) by {
            assert forall|i: int, j: int| 0 <= i < j < front.len() implies key_lt(
                front[i],
                front[j],
            ) by {
                assert(front[i] == s[i] && front[j] == s[j]);
            }
        }
        lemma_count_before_splits(front, key);
        let c = count_before(front, key) as int;
        if key_lt(s.last(), key) {
            assert forall|j: int| 0 <= j < front.len() implies key_lt(front[j], key) by {
                assert(front[j] == s[j]);
                lemma_lt_transitive(s[j], s.last(), key);
            }
            assert(c == front.len()) by {
                if c < front.len() {
                    assert(!key_lt(front[c], key));
                }
            }
            assert(count_before(s, key) == s.len());
            assert forall|j: int| 0 <= j < count_before(s, key) implies key_lt(s[j], key) by {
                if j < front.len() {
                    assert(front[j] == s[j]);
                }
            }
        } else {
            assert(count_before(s, key) == c);
            assert forall|j: int| 0 <= j < c implies key_lt(s[j], key) by {
                assert(front[j] == s[j]);
            }
            assert forall|j: int| c <= j < s.len() implies !key_lt(s[j], key) by {
                if j < front.len() {
                    assert(front[j] == s[j]);
                }
            }
        }
    }
}

/// A key has no more keys before it than a key that it is ordered before.
pub proof fn lemma_count_before_monotonic<K: Ord + Hash + Clone>(s: Seq<K>, a: K, b: K)
    requires
        key_laws::<K>(),
        key_le(a, b),
    ensures
        count_before(s, a) <= count_before(s, b),
    decreases s.len(),
{
    if s.len() > 0 {
        lemma_count_before_monotonic(s.drop_last(), a, b);
        if key_lt(s.last(), a) && a != b {
            lemma_lt_transitive(s.last(), a, b);
        }
    }
}

/// In a strictly ascending sequence a key has as many keys before it as its
/// position says.
pub proof fn lemma_count_before_member<K: Ord + Hash + Clone>(s: Seq<K>, i: int)
    requires
        key_laws::<K>(),
        strictly_ascending(s),
        0 <= i < s.len(),
    ensures
        count_before(s, s[i]) == i,
{
    assert forall|j: int| i <= j < s.len() implies !key_lt(s[j], s[i]) by {
        lemma_trichotomy(s[j], s[i]);
    }
    lemma_count_before_is_split(s, s[i], i);
}

/// A strictly ascending sequence holds no key twice.
pub proof fn lemma_strictly_ascending_no_duplicates<K: Ord + Hash + Clone>(s: Seq<K>)
    requires
        key_laws::<K>(),
        strictly_ascending(s),
    ensures
        s.no_duplicates(),
{
    assert forall|i: int, j: int| 0 <= i < s.len() && 0 <= j < s.len() && i != j implies s[i]
        != s[j] by {
        lemma_trichotomy(s[i], s[j]);
    }
}

/// There is one strictly ascending sequence of given keys: two that hold
/// the same keys are equal.
pub proof fn lemma_strictly_ascending_unique<K: Ord + Hash + Clone>(a: Seq<K>, b: Seq<K>)
    requires
        key_laws::<K>(),
        strictly_ascending(a),
        strictly_ascending(b),
        forall|k: K| a.contains(k) <==> b.contains(k),
    ensures
        a == b,
    decreases a.len(),
{
    if a.len() == 0 {
        if b.len() > 0 {
            assert(b.contains(b[0]));
        }
        assert(a =~= b);
    } else {
        assert(a.contains(a.last()));
        let ja = choose|j: int| 0 <= j < b.len() && b[j] == a.last();
        assert(b.contains(b.last()));
        let jb = choose|j: int| 0 <= j < a.len() && a[j] == b.last();
        lemma_trichotomy(a.last(), b.last());
        assert(a.last() == b.last());
        let fa = a.drop_last();
        let fb = b.drop_last();
        assert(strictly_ascending(fa)) by {
            assert forall|i: int, j: int| 0 <= i < j < fa.len() implies key_lt(fa[i], fa[j]) by {
                assert(fa[i] == a[i] && fa[j] == a[j]);
            }
        }
        assert(strictly_ascending(fb)) by {
            assert forall|i: int, j: int| 0 <= i < j < fb.len() implies key_lt(fb[i], fb[j]) by {
                assert(fb[i] == b[i] && fb[j] == b[j]);
            }
        }
        assert forall|k: K| fa.contains(k) <==> fb.contains(k) by {
            if fa.contains(k) {
                let i = choose|i: int| 0 <= i < fa.len() && fa[i] == k;
                assert(a[i] == k);
                assert(a.contains(k));
                let j = choose|j: int| 0 <= j < b.len() && b[j] == k;
                lemma_trichotomy(a[i], a.last());
                assert(fb[j] == k);
            }
            if fb.contains(k) {
                let i = choose|i: int| 0 <= i < fb.len() && fb[i] == k;
                assert(b[i] == k);
                assert(b.contains(k));
                let j = choose|j: int| 0 <= j < a.len() && a[j] == k;
                lemma_trichotomy(b[i], b.last());
                assert(fa[j] == k);
            }
        }
        lemma_strictly_ascending_unique(fa, fb);
        assert(a =~= fa.push(a.last()));
        assert(b =~= fb.push(b.last()));
    }
}

/// Looks `key` up in a strictly ascending vector by binary search. `Ok`
/// holds the position of the key; `Err` holds the position at which the
/// key would have to be inserted to keep the order.
pub fn search<K: Ord + Hash + Clone>(keys: &Vec<K>, key: &K) -> (r: Result<usize, usize>)
    requires
        key_laws::<K>(),
        strictly_ascending(keys@),
    ensures
        r is Ok <==> keys@.contains(*key),
        r matches Ok(i) ==> i < keys.len() && keys@[i as int] == *key,
        r matches Ok(i) ==> i == count_before(keys@, *key),
        r matches Err(i) ==> i == count_before(keys@, *key),
{
    let mut lo: usize = 0;
    let mut hi: usize = keys.len();
    while lo < hi
        invariant
            key_laws::<K>(),
            strictly_ascending(keys@),
            lo <= hi <= keys.len(),
            forall|j: int| 0 <= j < lo ==> key_lt(keys@[j], *key),
            forall|j: int| hi <= j < keys.len() ==> key_lt(*key, keys@[j]),
        decreases hi - lo,
    {
        let mid: usize = lo + (hi - lo) / 2;
        match rank(&keys[mid], key) {
            Rank::Before => {
                proof {
                    assert forall|j: int| 0 <= j < mid + 1 implies key_lt(keys@[j], *key) by {
                        if j < mid {
                            lemma_lt_transitive(keys@[j], keys@[mid as int], *key);
                        }
                    }
                }
                lo = mid + 1;
            },
            Rank::Same => {
                proof {
                    assert forall|j: int| mid <= j < keys.len() implies !key_lt(
                        keys@[j],
                        *key,
                    ) by {
                        lemma_trichotomy(keys@[j], *key);
                    }
                    lemma_count_before_is_split(keys@, *key, mid as int);
                }
                return Ok(mid);
            },
            Rank::After => {
                proof {
                    assert forall|j: int| mid <= j < keys.len() implies key_lt(*key, keys@[j]) by {
                        if mid < j {
                            lemma_lt_transitive(*key, keys@[mid as int], keys@[j]);
                        }
                    }
                }
                hi = mid;
            },
        }
    }
    proof {
        assert forall|j: int| lo <= j < keys.len() implies !key_lt(keys@[j], *key) by {
            lemma_trichotomy(keys@[j], *key);
        }
        lemma_count_before_is_split(keys@, *key, lo as int);
        assert forall|j: int| 0 <= j < keys.len() implies keys@[j] != *key by {
            lemma_trichotomy(keys@[j], *key);
        }
    }
    Err(lo)
}

/// `sort_unstable` of std's slices, on the keys of a vector. As std
/// documents it, the call leaves the vector in ascending order and only
/// rearranges it: every key is there as often as before. std lets the sort
/// panic where the comparison is no total order, which `key_laws` rules
/// out.
#[verifier::external_body]
pub(crate) fn sort_keys<K: Ord + Hash + Clone>(keys: &mut Vec<K>)
    requires
        key_laws::<K>(),
    ensures
        ascending(final(keys)@),
        final(keys)@.to_multiset() == old(keys)@.to_multiset(),
{
    keys.sort_unstable();
}

/// Drops the repeated keys of an ascending vector: what is left is strictly
/// ascending and holds the same keys.
pub fn distinct<K: Ord + Hash + Clone>(sorted: Vec<K>) -> (out: Vec<K>)
    requires
        key_laws::<K>(),
        ascending(sorted@),
    ensures
        strictly_ascending(out@),
        forall|k: K| out@.contains(k) <==> sorted@.contains(k),
{
    let ghost all = sorted@;
    let mut out: Vec<K> = Vec::with_capacity(sorted.len());
    for k in it: sorted
        invariant
            key_laws::<K>(),
            ascending(all),
            it.seq() == all,
            strictly_ascending(out@),
            forall|x: K| out@.contains(x) <==> all.take(it.index() as int).contains(x),
            it.index() == 0 ==> out.len() == 0,
            it.index() > 0 ==> out.len() > 0 && out@.last() == all[it.index() - 1],
    {
        let ghost i = it.index() as int;
        let ghost before = out@;
        assert(k == all[i]);
        let fresh: bool = match out.last() {
            None => true,
            Some(prev) => match rank(prev, &k) {
                Rank::Same => false,
                _ => true,
            },
        };
        if fresh {
            proof {
                assert forall|a: int| 0 <= a < before.len() implies key_lt(before[a], k) by {
                    assert(key_le(all[i - 1], all[i]));
                    lemma_trichotomy(before.last(), k);
                    if a < before.len() - 1 {
                        lemma_lt_transitive(before[a], before.last(), k);
                    }
                }
            }
            out.push(k);
            proof {
                assert forall|x: K| out@.contains(x) <==> all.take(i + 1).contains(x) by {
                    lemma_take_one_more(all, i, x);
                    lemma_push_contains(before, k, x);
                }
            }
        } else {
            proof {
                assert forall|x: K| out@.contains(x) <==> all.take(i + 1).contains(x) by {
                    lemma_take_one_more(all, i, x);
                }
            }
        }
    }
    proof {
        assert(all.take(all.len() as int) =~= all);
    }
    out
}

/// A key is among the first `i + 1` of a sequence where it is among the
/// first `i`, or is the one at `i`.
pub proof fn lemma_take_one_more<K>(s: Seq<K>, i: int, x: K)
    requires
        0 <= i < s.len(),
    ensures
        s.take(i + 1).contains(x) <==> s.take(i).contains(x) || s[i] == x,
{
    let longer = s.take(i + 1);
    let shorter = s.take(i);
    if longer.contains(x) {
        let j = choose|j: int| 0 <= j < longer.len() && longer[j] == x;
        if j < i {
            assert(shorter[j] == x);
        }
    }
    if shorter.contains(x) {
        let j = choose|j: int| 0 <= j < shorter.len() && shorter[j] == x;
        assert(longer[j] == x);
    }
    if s[i] == x {
        assert(longer[i] == x);
    }
}

/// A sequence with one more key at its end holds that key and what it held.
pub proof fn lemma_push_contains<K>(s: Seq<K>, k: K, x: K)
    ensures
        s.push(k).contains(x) <==> s.contains(x) || k == x,
{
    let longer = s.push(k);
    if longer.contains(x) {
        let j = choose|j: int| 0 <= j < longer.len() && longer[j] == x;
        if j < s.len() {
            assert(s[j] == x);
        }
    }
    if s.contains(x) {
        let j = choose|j: int| 0 <= j < s.len() && s[j] == x;
        assert(longer[j] == x);
    }
    if k == x {
        assert(longer[s.len() as int] == x);
    }
}

} // verus!
