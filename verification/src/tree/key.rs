//! The total order on keys that every part of the tree relies on.

use core::cmp::Ordering;
use vstd::prelude::*;
use vstd::laws_cmp::obeys_cmp;
use vstd::std_specs::cmp::OrdSpec;

verus! {

/// The outcome of comparing two keys.
#[derive(Clone, Copy, Debug, PartialEq, Eq, Structural)]
pub enum KeyOrder {
    Less,
    Equal,
    Greater,
}

/// `a` comes strictly before `b`.
pub open spec fn key_lt<K: Ord>(a: K, b: K) -> bool {
    a.cmp_spec(&b) == Ordering::Less
}

/// `a` and `b` occupy the same place in the order.
pub open spec fn key_eq<K: Ord>(a: K, b: K) -> bool {
    a.cmp_spec(&b) == Ordering::Equal
}

/// `K` is totally ordered by its `Ord` implementation, and cloning a key keeps its place.
pub open spec fn ordered_key<K: Ord + Clone>() -> bool {
    &&& obeys_cmp::<K>()
    &&& forall|a: K, b: K| #[trigger] cloned(a, b) ==> key_eq(a, b)
}

/// What a total order gives: exactly one of less, equal, greater; both relations compose.
pub proof fn lemma_order<K: Ord + Clone>()
    requires
        ordered_key::<K>(),
    ensures
        forall|a: K, b: K|
            #![trigger key_lt(a, b)]
            #![trigger key_eq(a, b)]
            {
                &&& key_lt(a, b) || key_eq(a, b) || key_lt(b, a)
                &&& !(key_lt(a, b) && key_eq(a, b))
                &&& !(key_lt(a, b) && key_lt(b, a))
                &&& key_eq(a, b) ==> key_eq(b, a)
            },
        forall|a: K| #[trigger] key_eq(a, a),
        forall|a: K, b: K, c: K|
            #![trigger key_lt(a, b), key_lt(b, c)]
            key_lt(a, b) && key_lt(b, c) ==> key_lt(a, c),
        forall|a: K, b: K, c: K|
            #![trigger key_lt(a, b), key_eq(b, c)]
            key_lt(a, b) && key_eq(b, c) ==> key_lt(a, c),
        forall|a: K, b: K, c: K|
            #![trigger key_eq(a, b), key_lt(b, c)]
            key_eq(a, b) && key_lt(b, c) ==> key_lt(a, c),
        forall|a: K, b: K, c: K|
            #![trigger key_eq(a, b), key_eq(b, c)]
            key_eq(a, b) && key_eq(b, c) ==> key_eq(a, c),
{
    reveal(vstd::laws_cmp::obeys_cmp_partial_ord);
    reveal(vstd::laws_cmp::obeys_cmp_ord);
    reveal(vstd::laws_cmp::obeys_partial_cmp_spec_properties);
    reveal(vstd::laws_eq::obeys_eq_spec_properties);
}

/// Compares two keys.
pub fn compare<K: Ord + Clone>(a: &K, b: &K) -> (o: KeyOrder)
    requires
        ordered_key::<K>(),
    ensures
        o == KeyOrder::Less <==> key_lt(*a, *b),
        o == KeyOrder::Equal <==> key_eq(*a, *b),
        o == KeyOrder::Greater <==> key_lt(*b, *a),
{
    proof {
        lemma_order::<K>();
        reveal(vstd::laws_cmp::obeys_cmp_ord);
    }
    match a.cmp(b) {
        Ordering::Less => KeyOrder::Less,
        Ordering::Equal => KeyOrder::Equal,
        Ordering::Greater => KeyOrder::Greater,
    }
}

} // verus!
