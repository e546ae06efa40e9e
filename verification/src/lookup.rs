//! Search strategies over a vector of pairs sorted by key.
//!
//! A strategy answers one question: at which index does a key stand, or at
//! which index would it have to be inserted to keep the pairs sorted. The
//! three strategies here differ in cost only; their answers are the same.

use crate::order::{less, lemma_less_irreflexive, lemma_less_transitive, rank, total_order, Rank};
use vstd::prelude::*;

verus! {

/// The keys of `s` are strictly ascending; in particular no key occurs twice.
pub open spec fn keys_ascending<K: Ord, V>(s: Seq<(K, V)>) -> bool {
    forall|i: int, j: int| #![trigger s[i], s[j]] 0 <= i < j < s.len() ==> less(s[i].0, s[j].0)
}

/// Some pair of `s` has the key `key`.
pub open spec fn has_key<K, V>(s: Seq<(K, V)>, key: K) -> bool {
    exists|i: int| 0 <= i < s.len() && (#[trigger] s[i]).0 == key
}

/// `r` is a correct answer for `key` in `s`: `Ok(i)` when the pair at `i` has
/// that key, `Err(i)` when every pair before `i` has a smaller key and every
/// pair from `i` on a greater one.
pub open spec fn found_at<K: Ord, V>(s: Seq<(K, V)>, key: K, r: Result<usize, usize>) -> bool {
    match r {
        Ok(i) => i < s.len() && s[i as int].0 == key,
        Err(i) => {
            &&& i <= s.len()
            &&& forall|j: int| 0 <= j < i ==> less((#[trigger] s[j]).0, key)
            &&& forall|j: int| i <= j < s.len() ==> less(key, (#[trigger] s[j]).0)
        },
    }
}

/// The answer for `key` in `s`. On ascending keys under a total order there
/// is exactly one correct answer (`lemma_answer_unique`), and this is it.
pub open spec fn position<K: Ord, V>(s: Seq<(K, V)>, key: K) -> Result<usize, usize> {
    choose|r: Result<usize, usize>| found_at(s, key, r)
}

/// The index that `r` carries, found or not.
pub open spec fn index_of(r: Result<usize, usize>) -> int {
    match r {
        Ok(i) => i as int,
        Err(i) => i as int,
    }
}

/// Two correct answers for the same pairs and key are the same answer.
pub proof fn lemma_answer_unique<K: Ord, V>(
    s: Seq<(K, V)>,
    key: K,
    r1: Result<usize, usize>,
    r2: Result<usize, usize>,
)
    requires
        total_order::<K>(),
        keys_ascending(s),
        found_at(s, key, r1),
        found_at(s, key, r2),
    ensures
        r1 == r2,
{
    lemma_less_irreflexive(key);
    let i = index_of(r1);
    let j = index_of(r2);
    match (r1, r2) {
        (Ok(_), Ok(_)) => {
            if i < j {
                assert(less(s[i].0, s[j].0));
            } else if j < i {
                assert(less(s[j].0, s[i].0));
            }
        },
        (Ok(_), Err(_)) => {
            if i < j {
                assert(less(s[i].0, key));
            } else {
                assert(less(key, s[i].0));
            }
        },
        (Err(_), Ok(_)) => {
            if j < i {
                assert(less(s[j].0, key));
            } else {
                assert(less(key, s[j].0));
            }
        },
        (Err(_), Err(_)) => {
            if i < j {
                assert(less(key, s[i].0));
                assert(less(s[i].0, key));
                lemma_less_transitive(key, s[i].0, key);
            } else if j < i {
                assert(less(key, s[j].0));
                assert(less(s[j].0, key));
                lemma_less_transitive(key, s[j].0, key);
            }
        },
    }
}

/// A correct answer is the answer.
pub proof fn lemma_position<K: Ord, V>(s: Seq<(K, V)>, key: K, r: Result<usize, usize>)
    requires
        total_order::<K>(),
        keys_ascending(s),
        found_at(s, key, r),
    ensures
        position(s, key) == r,
        found_at(s, key, position(s, key)),
        r is Ok <==> has_key(s, key),
{
    lemma_answer_unique(s, key, r, position(s, key));
    if has_key(s, key) {
        let i = choose|i: int| 0 <= i < s.len() && (#[trigger] s[i]).0 == key;
        lemma_answer_unique(s, key, r, Ok(i as usize));
    }
    if let Ok(i) = r {
        assert(s[i as int].0 == key);
    }
}

/// A search strategy: anything that finds the answer for a key in pairs
/// sorted by key.
pub trait Lookup<K: Ord, V> {
    fn lookup(&self, slice: &[(K, V)], key: &K) -> (r: Result<usize, usize>)
        requires
            total_order::<K>(),
            keys_ascending(slice@),
        ensures
            found_at(slice@, *key, r),
            r == position(slice@, *key),
    ;
}

/// Halves the range that can still hold the key: a logarithmic number of
/// comparisons.
#[derive(Copy, Clone, Default)]
pub struct BinarySearch;

/// Scans from the first pair on: cheap when keys near the front are asked for.
#[derive(Copy, Clone, Default)]
pub struct LinearFront;

/// Scans from the last pair back: cheap when keys near the back are asked
/// for, as when keys arrive mostly in ascending order.
#[derive(Copy, Clone, Default)]
pub struct LinearBack;

impl<K: Ord, V> Lookup<K, V> for BinarySearch {
    fn lookup(&self, slice: &[(K, V)], key: &K) -> (r: Result<usize, usize>) {
        let mut lo: usize = 0;
        let mut hi: usize = slice.len();
        while lo < hi
            invariant
                total_order::<K>(),
                keys_ascending(slice@),
                lo <= hi <= slice.len(),
                forall|j: int| 0 <= j < lo ==> less((#[trigger] slice@[j]).0, *key),
                forall|j: int| hi <= j < slice.len() ==> less(*key, (#[trigger] slice@[j]).0),
            decreases hi - lo,
        {
            let mid: usize = lo + (hi - lo) / 2;
            match rank(&slice[mid].0, key) {
                Rank::Before => {
                    proof {
                        lemma_all_before(slice@, *key, mid as int);
                    }
                    lo = mid + 1;
                },
                Rank::Same => {
                    proof {
                        lemma_position(slice@, *key, Ok(mid));
                    }
                    return Ok(mid);
                },
                Rank::After => {
                    proof {
                        lemma_all_after(slice@, *key, mid as int);
                    }
                    hi = mid;
                },
            }
        }
        proof {
            lemma_position(slice@, *key, Err(lo));
        }
        Err(lo)
    }
}

impl<K: Ord, V> Lookup<K, V> for LinearFront {
    fn lookup(&self, slice: &[(K, V)], key: &K) -> (r: Result<usize, usize>) {
        let mut i: usize = 0;
        while i < slice.len()
            invariant
                total_order::<K>(),
                keys_ascending(slice@),
                i <= slice.len(),
                forall|j: int| 0 <= j < i ==> less((#[trigger] slice@[j]).0, *key),
            decreases slice.len() - i,
        {
            match rank(&slice[i].0, key) {
                Rank::Before => {},
                Rank::Same => {
                    proof {
                        lemma_position(slice@, *key, Ok(i));
                    }
                    return Ok(i);
                },
                Rank::After => {
                    proof {
                        lemma_all_after(slice@, *key, i as int);
                        lemma_position(slice@, *key, Err(i));
                    }
                    return Err(i);
                },
            }
            i += 1;
        }
        proof {
            lemma_position(slice@, *key, Err(i));
        }
        Err(slice.len())
    }
}

impl<K: Ord, V> Lookup<K, V> for LinearBack {
    fn lookup(&self, slice: &[(K, V)], key: &K) -> (r: Result<usize, usize>) {
        let mut i: usize = slice.len();
        while i > 0
            invariant
                total_order::<K>(),
                keys_ascending(slice@),
                i <= slice.len(),
                forall|j: int| i <= j < slice.len() ==> less(*key, (#[trigger] slice@[j]).0),
            decreases i,
        {
            let index: usize = i - 1;
            match rank(&slice[index].0, key) {
                Rank::Before => {
                    proof {
                        lemma_all_before(slice@, *key, index as int);
                        lemma_position(slice@, *key, Err(i));
                    }
                    return Err(index + 1);
                },
                Rank::Same => {
                    proof {
                        lemma_position(slice@, *key, Ok(index));
                    }
                    return Ok(index);
                },
                Rank::After => {},
            }
            i = index;
        }
        proof {
            lemma_position(slice@, *key, Err(0));
        }
        Err(0)
    }
}

/// When the pair at `m` has a key smaller than `key`, so has every pair up
/// to `m`.
proof fn lemma_all_before<K: Ord, V>(s: Seq<(K, V)>, key: K, m: int)
    requires
        total_order::<K>(),
        keys_ascending(s),
        0 <= m < s.len(),
        less(s[m].0, key),
    ensures
        forall|j: int| 0 <= j <= m ==> less((#[trigger] s[j]).0, key),
{
    assert forall|j: int| 0 <= j <= m implies less((#[trigger] s[j]).0, key) by {
        if j < m {
            assert(less(s[j].0, s[m].0));
            lemma_less_transitive(s[j].0, s[m].0, key);
        }
    }
}

/// When the pair at `m` has a key greater than `key`, so has every pair
/// from `m` on.
proof fn lemma_all_after<K: Ord, V>(s: Seq<(K, V)>, key: K, m: int)
    requires
        total_order::<K>(),
        keys_ascending(s),
        0 <= m < s.len(),
        less(key, s[m].0),
    ensures
        forall|j: int| m <= j < s.len() ==> less(key, (#[trigger] s[j]).0),
{
    assert forall|j: int| m <= j < s.len() implies less(key, (#[trigger] s[j]).0) by {
        if m < j {
            assert(less(s[m].0, s[j].0));
            lemma_less_transitive(key, s[m].0, s[j].0);
        }
    }
}

/// The three strategies are interchangeable: on the same sorted pairs and
/// the same key, whatever each of them may return under its contract is one
/// and the same answer.
pub proof fn lemma_strategies_agree<K: Ord, V>(
    s: Seq<(K, V)>,
    key: K,
    by_halving: Result<usize, usize>,
    from_front: Result<usize, usize>,
    from_back: Result<usize, usize>,
)
    requires
        total_order::<K>(),
        keys_ascending(s),
        found_at(s, key, by_halving),
        found_at(s, key, from_front),
        found_at(s, key, from_back),
    ensures
        by_halving == from_front,
        from_front == from_back,
        by_halving == position(s, key),
{
    lemma_position(s, key, by_halving);
    lemma_position(s, key, from_front);
    lemma_position(s, key, from_back);
}

} // verus!
