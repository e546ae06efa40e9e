//! Equality and order between maps, both read off the pairs in the order
//! in which the maps yield them.

use crate::map::FlatMap;
use crate::pairs::{lemma_rest_from, rest_from};
use std::cmp::Ordering;
use vstd::prelude::*;
use vstd::std_specs::cmp::{
    OrdSpec, PartialEqSpec, PartialEqSpecImpl, PartialOrdSpec, PartialOrdSpecImpl,
};

verus! {

/// Two pairs are equal: their keys are and their values are.
pub open spec fn pair_equal<K: PartialEq, V: PartialEq>(a: (K, V), b: (K, V)) -> bool {
    a.0.eq_spec(&b.0) && a.1.eq_spec(&b.1)
}

/// Two sequences of pairs are equal: they are of one length and equal pair
/// by pair.
pub open spec fn pairs_equal<K: PartialEq, V: PartialEq>(a: Seq<(K, V)>, b: Seq<(K, V)>) -> bool {
    &&& a.len() == b.len()
    &&& forall|j: int| 0 <= j < a.len() ==> pair_equal(#[trigger] a[j], b[j])
}

/// How one pair stands to another: by the keys, and by the values where the
/// keys are equal.
pub open spec fn pair_order<K: PartialOrd, V: PartialOrd>(a: (K, V), b: (K, V)) -> Option<
    Ordering,
> {
    match a.0.partial_cmp_spec(&b.0) {
        Some(Ordering::Equal) => a.1.partial_cmp_spec(&b.1),
        other => other,
    }
}

/// How one sequence of pairs stands to another, lexicographically: the
/// first pair that is not equal to its counterpart decides, and where there
/// is none the shorter sequence comes first.
pub open spec fn pairs_order<K: PartialOrd, V: PartialOrd>(
    a: Seq<(K, V)>,
    b: Seq<(K, V)>,
) -> Option<Ordering>
    decreases a.len(),
{
    if a.len() == 0 {
        if b.len() == 0 {
            Some(Ordering::Equal)
        } else {
            Some(Ordering::Less)
        }
    } else if b.len() == 0 {
        Some(Ordering::Greater)
    } else {
        match pair_order(a.first(), b.first()) {
            Some(Ordering::Equal) => pairs_order(a.drop_first(), b.drop_first()),
            other => other,
        }
    }
}

impl<K: PartialEq, V: PartialEq, L> PartialEq for FlatMap<K, V, L> {
    fn eq(&self, other: &Self) -> (r: bool) {
        let a = self.as_slice();
        let b = other.as_slice();
        if a.len() != b.len() {
            return false;
        }
        let mut i: usize = 0;
        while i < a.len()
            invariant
                a@ == self@,
                b@ == other@,
                a.len() == b.len(),
                i <= a.len(),
                K::obeys_eq_spec() && V::obeys_eq_spec() ==> forall|j: int|
                    0 <= j < i ==> pair_equal(#[trigger] a@[j], b@[j]),
            decreases a.len() - i,
        {
            if !(a[i].0 == b[i].0 && a[i].1 == b[i].1) {
                return false;
            }
            i += 1;
        }
        true
    }
}

impl<K: PartialEq, V: PartialEq, L> PartialEqSpecImpl for FlatMap<K, V, L> {
    open spec fn obeys_eq_spec() -> bool {
        K::obeys_eq_spec() && V::obeys_eq_spec()
    }

    open spec fn eq_spec(&self, other: &Self) -> bool {
        pairs_equal(self@, other@)
    }
}

impl<K: Eq, V: Eq, L> Eq for FlatMap<K, V, L> {

}

impl<K: PartialOrd, V: PartialOrd, L> PartialOrd for FlatMap<K, V, L> {
    fn partial_cmp(&self, other: &Self) -> (r: Option<Ordering>) {
        let a = self.as_slice();
        let b = other.as_slice();
        let mut i: usize = 0;
        proof {
            lemma_rest_from(a@, 0);
            lemma_rest_from(b@, 0);
        }
        while i < a.len() && i < b.len()
            invariant
                a@ == self@,
                b@ == other@,
                i <= a.len(),
                i <= b.len(),
                K::obeys_partial_cmp_spec() && V::obeys_partial_cmp_spec() ==> pairs_order(
                    self@,
                    other@,
                ) == pairs_order(rest_from(a@, i), rest_from(b@, i)),
            decreases a.len() - i,
        {
            proof {
                lemma_rest_from(a@, i);
                lemma_rest_from(b@, i);
            }
            match a[i].0.partial_cmp(&b[i].0) {
                Some(Ordering::Equal) => {
                    match a[i].1.partial_cmp(&b[i].1) {
                        Some(Ordering::Equal) => {},
                        other => {
                            return other;
                        },
                    }
                },
                other => {
                    return other;
                },
            }
            i += 1;
        }
        proof {
            lemma_rest_from(a@, i);
            lemma_rest_from(b@, i);
        }
        if i < b.len() {
            Some(Ordering::Less)
        } else if i < a.len() {
            Some(Ordering::Greater)
        } else {
            Some(Ordering::Equal)
        }
    }
}

impl<K: PartialOrd, V: PartialOrd, L> PartialOrdSpecImpl for FlatMap<K, V, L> {
    open spec fn obeys_partial_cmp_spec() -> bool {
        K::obeys_partial_cmp_spec() && V::obeys_partial_cmp_spec()
    }

    open spec fn partial_cmp_spec(&self, other: &Self) -> Option<Ordering> {
        pairs_order(self@, other@)
    }
}

/// How one pair stands to another under the total order of keys and
/// values: by the keys, and by the values where the keys are equal.
pub open spec fn pair_rank<K: Ord, V: Ord>(a: (K, V), b: (K, V)) -> Ordering {
    match a.0.cmp_spec(&b.0) {
        Ordering::Equal => a.1.cmp_spec(&b.1),
        other => other,
    }
}

/// How one sequence of pairs stands to another under the total order of
/// keys and values, lexicographically.
pub open spec fn pairs_rank<K: Ord, V: Ord>(a: Seq<(K, V)>, b: Seq<(K, V)>) -> Ordering
    decreases a.len(),
{
    if a.len() == 0 {
        if b.len() == 0 {
            Ordering::Equal
        } else {
            Ordering::Less
        }
    } else if b.len() == 0 {
        Ordering::Greater
    } else {
        match pair_rank(a.first(), b.first()) {
            Ordering::Equal => pairs_rank(a.drop_first(), b.drop_first()),
            other => other,
        }
    }
}

impl<K: Ord, V: Ord, L> FlatMap<K, V, L> {
    /// Compares two maps lexicographically, pair by pair in the order in
    /// which they yield them.
    pub fn cmp(&self, other: &Self) -> (r: Ordering)
        ensures
            K::obeys_cmp_spec() && V::obeys_cmp_spec() ==> r == pairs_rank(self@, other@),
    {
        let a = self.as_slice();
        let b = other.as_slice();
        let mut i: usize = 0;
        proof {
            lemma_rest_from(a@, 0);
            lemma_rest_from(b@, 0);
        }
        while i < a.len() && i < b.len()
            invariant
                a@ == self@,
                b@ == other@,
                i <= a.len(),
                i <= b.len(),
                K::obeys_cmp_spec() && V::obeys_cmp_spec() ==> pairs_rank(self@, other@)
                    == pairs_rank(rest_from(a@, i), rest_from(b@, i)),
            decreases a.len() - i,
        {
            proof {
                lemma_rest_from(a@, i);
                lemma_rest_from(b@, i);
            }
            match a[i].0.cmp(&b[i].0) {
                Ordering::Equal => {
                    match a[i].1.cmp(&b[i].1) {
                        Ordering::Equal => {},
                        other => {
                            return other;
                        },
                    }
                },
                other => {
                    return other;
                },
            }
            i += 1;
        }
        proof {
            lemma_rest_from(a@, i);
            lemma_rest_from(b@, i);
        }
        if i < b.len() {
            Ordering::Less
        } else if i < a.len() {
            Ordering::Greater
        } else {
            Ordering::Equal
        }
    }
}

} // verus!
