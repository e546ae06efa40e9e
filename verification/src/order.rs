//! The total order on keys, as the rest of the library sees it.

use std::cmp::Ordering;
use vstd::prelude::*;
use vstd::std_specs::cmp::OrdSpec;

verus! {

/// `a` sorts strictly before `b`.
pub open spec fn less<K: Ord>(a: K, b: K) -> bool {
    a.cmp_spec(&b) == Ordering::Less
}

/// The key type's comparison is a strict total order whose notion of
/// "equal" is equality of values.
pub open spec fn total_order<K: Ord>() -> bool {
    &&& K::obeys_cmp_spec()
    &&& forall|a: K, b: K| #![trigger a.cmp_spec(&b)] a.cmp_spec(&b) == Ordering::Equal <==> a == b
    &&& forall|a: K, b: K| #![trigger a.cmp_spec(&b)] a.cmp_spec(&b) == Ordering::Greater <==> less(b, a)
    &&& forall|a: K, b: K, c: K| #![trigger less(a, b), less(b, c)] less(a, b) && less(b, c) ==> less(a, c)
}

/// How one key stands to another.
#[derive(Clone, Copy, Debug, PartialEq, Eq)]
pub enum Rank {
    Before,
    Same,
    After,
}

/// Compares two keys once.
pub fn rank<K: Ord>(a: &K, b: &K) -> (r: Rank)
    requires
        total_order::<K>(),
    ensures
        r == Rank::Before <==> less(*a, *b),
        r == Rank::Same <==> *a == *b,
        r == Rank::After <==> less(*b, *a),
{
    match a.cmp(b) {
        Ordering::Less => Rank::Before,
        Ordering::Equal => Rank::Same,
        Ordering::Greater => Rank::After,
    }
}

/// No key sorts before itself.
pub proof fn lemma_less_irreflexive<K: Ord>(a: K)
    requires
        total_order::<K>(),
    ensures
        !less(a, a),
{
    assert(a.cmp_spec(&a) == Ordering::Equal);
}

/// If `a` sorts before `b` and `b` before `c`, then `a` sorts before `c`.
pub proof fn lemma_less_transitive<K: Ord>(a: K, b: K, c: K)
    requires
        total_order::<K>(),
        less(a, b),
        less(b, c),
    ensures
        less(a, c),
{
}

/// Of two keys exactly one holds: the first sorts before the second, they
/// are equal, or the second sorts before the first.
pub proof fn lemma_less_trichotomy<K: Ord>(a: K, b: K)
    requires
        total_order::<K>(),
    ensures
        less(a, b) || a == b || less(b, a),
        !(less(a, b) && a == b),
        !(less(b, a) && a == b),
        !(less(a, b) && less(b, a)),
{
    lemma_less_irreflexive(a);
    if less(a, b) && less(b, a) {
        lemma_less_transitive(a, b, a);
    }
    let c = a.cmp_spec(&b);
    assert(c == Ordering::Less || c == Ordering::Equal || c == Ordering::Greater);
}

/// Unsigned 64-bit keys are totally ordered.
pub proof fn lemma_u64_total_order()
    ensures
        total_order::<u64>(),
{
}

/// Unsigned 32-bit keys are totally ordered.
pub proof fn lemma_u32_total_order()
    ensures
        total_order::<u32>(),
{
}

/// Signed 64-bit keys are totally ordered.
pub proof fn lemma_i64_total_order()
    ensures
        total_order::<i64>(),
{
}

/// Signed 32-bit keys are totally ordered.
pub proof fn lemma_i32_total_order()
    ensures
        total_order::<i32>(),
{
}

/// Machine-word keys are totally ordered.
pub proof fn lemma_usize_total_order()
    ensures
        total_order::<usize>(),
{
}

} // verus!
