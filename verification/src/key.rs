//! What the index asks of a key type, and the order it induces.

use std::hash::Hash;
use std::cmp::Ordering;
use vstd::prelude::*;
use vstd::laws_cmp::obeys_cmp;
use vstd::laws_eq::obeys_concrete_eq;
use vstd::std_specs::cmp::OrdSpec;
use vstd::std_specs::cmp::PartialOrdSpec;
use vstd::std_specs::cmp::PartialEqSpec;
use vstd::std_specs::hash::obeys_key_model;

verus! {

/// The key type behaves as a key should: hashing and `==` agree with
/// equality of values, the comparison is a total order that agrees with
/// `==`, and a clone of a key is that key.
pub open spec fn key_laws<K: Ord + Hash + Clone>() -> bool {
    &&& obeys_key_model::<K>()
    &&& obeys_cmp::<K>()
    &&& obeys_concrete_eq::<K>()
    &&& forall|a: K, b: K| cloned(a, b) ==> a == b
}

/// `a` is ordered strictly before `b`.
pub open spec fn key_lt<K: Ord>(a: K, b: K) -> bool {
    a.cmp_spec(&b) == Ordering::Less
}

/// `a` is ordered before `b`, or is `b`.
pub open spec fn key_le<K: Ord>(a: K, b: K) -> bool {
    key_lt(a, b) || a == b
}

/// Exactly one of `a < b`, `a == b`, `b < a` holds.
pub proof fn lemma_trichotomy<K: Ord + Hash + Clone>(a: K, b: K)
    requires
        key_laws::<K>(),
    ensures
        key_lt(a, b) || a == b || key_lt(b, a),
        !(key_lt(a, b) && a == b),
        !(key_lt(b, a) && a == b),
        !(key_lt(a, b) && key_lt(b, a)),
{
    reveal(vstd::laws_cmp::obeys_cmp_partial_ord);
    reveal(vstd::laws_cmp::obeys_cmp_ord);
    reveal(vstd::laws_cmp::obeys_partial_cmp_spec_properties);
    reveal(obeys_concrete_eq);
    assert(a.partial_cmp_spec(&b) == Some(a.cmp_spec(&b)));
    assert(b.partial_cmp_spec(&a) == Some(b.cmp_spec(&a)));
    assert(a.eq_spec(&b) <==> a == b);
}

/// The order is transitive.
pub proof fn lemma_lt_transitive<K: Ord + Hash + Clone>(a: K, b: K, c: K)
    requires
        key_laws::<K>(),
        key_lt(a, b),
        key_lt(b, c),
    ensures
        key_lt(a, c),
{
    reveal(vstd::laws_cmp::obeys_cmp_partial_ord);
    reveal(vstd::laws_cmp::obeys_cmp_ord);
    reveal(vstd::laws_cmp::obeys_partial_cmp_spec_properties);
    assert(a.partial_cmp_spec(&b) == Some(a.cmp_spec(&b)));
    assert(b.partial_cmp_spec(&c) == Some(b.cmp_spec(&c)));
    assert(a.partial_cmp_spec(&c) == Some(a.cmp_spec(&c)));
}

/// The integer types are keys, ordered as numbers.
pub proof fn lemma_integer_keys()
    ensures
        key_laws::<u8>(),
        key_laws::<u16>(),
        key_laws::<u32>(),
        key_laws::<u64>(),
        key_laws::<u128>(),
        key_laws::<usize>(),
        key_laws::<i8>(),
        key_laws::<i16>(),
        key_laws::<i32>(),
        key_laws::<i64>(),
        key_laws::<i128>(),
        key_laws::<isize>(),
{
    broadcast use vstd::laws_cmp::group_laws_cmp;
    broadcast use vstd::laws_eq::group_laws_eq;
    broadcast use vstd::std_specs::hash::group_hash_axioms;
}

/// How a key stands to another.
#[derive(Clone, Copy, Debug, PartialEq, Eq, Structural)]
pub enum Rank {
    /// It is ordered before the other.
    Before,
    /// It is the other.
    Same,
    /// It is ordered after the other.
    After,
}

/// Compares two keys.
pub fn rank<K: Ord + Hash + Clone>(a: &K, b: &K) -> (r: Rank)
    requires
        key_laws::<K>(),
    ensures
        r is Before <==> key_lt(*a, *b),
        r is Same <==> *a == *b,
        r is After <==> key_lt(*b, *a),
{
    proof {
        lemma_trichotomy(*a, *b);
        reveal(vstd::laws_cmp::obeys_cmp_partial_ord);
        reveal(vstd::laws_cmp::obeys_cmp_ord);
        reveal(vstd::laws_cmp::obeys_partial_cmp_spec_properties);
        reveal(obeys_concrete_eq);
        assert(a.partial_cmp_spec(b) == Some(a.cmp_spec(b)));
        assert(b.partial_cmp_spec(a) == Some(b.cmp_spec(a)));
    }
    match a.cmp(b) {
        Ordering::Less => Rank::Before,
        Ordering::Equal => Rank::Same,
        Ordering::Greater => Rank::After,
    }
}

} // verus!
