//! The mathematical model of the map: a sequence of pairs with strictly
//! ascending keys, and what each edit does to it.

use crate::lookup::{found_at, has_key, keys_ascending, lemma_position, position};
use crate::order::{lemma_less_irreflexive, lemma_less_trichotomy, less, total_order};
use vstd::prelude::*;

verus! {

/// The pairs after `key` has been given `value`: the value is replaced in
/// place where the key is present, and the pair is inserted at its sorted
/// position where it is not.
pub open spec fn with_pair<K: Ord, V>(s: Seq<(K, V)>, key: K, value: V) -> Seq<(K, V)> {
    match position(s, key) {
        Ok(i) => s.update(i as int, (s[i as int].0, value)),
        Err(i) => s.insert(i as int, (key, value)),
    }
}

/// The pairs after `key` has been given `value` unless it already had one.
pub open spec fn with_pair_if_absent<K: Ord, V>(s: Seq<(K, V)>, key: K, value: V) -> Seq<(K, V)> {
    match position(s, key) {
        Ok(_) => s,
        Err(i) => s.insert(i as int, (key, value)),
    }
}

/// The pairs without the pair of `key`, if there is one.
pub open spec fn without_key<K: Ord, V>(s: Seq<(K, V)>, key: K) -> Seq<(K, V)> {
    match position(s, key) {
        Ok(i) => s.remove(i as int),
        Err(_) => s,
    }
}

/// The value that `key` has in `s`, if any.
pub open spec fn value_of<K: Ord, V>(s: Seq<(K, V)>, key: K) -> Option<V> {
    match position(s, key) {
        Ok(i) => Some(s[i as int].1),
        Err(_) => None,
    }
}

/// The index at which `s` is cut in two for `key`: that of the first pair
/// whose key is not smaller than `key`.
pub open spec fn cut_point<K: Ord, V>(s: Seq<(K, V)>, key: K) -> int {
    match position(s, key) {
        Ok(i) => i as int,
        Err(i) => i as int,
    }
}

/// The pairs after each pair of `items` has been given to `s` in turn, a
/// later pair replacing the value of an earlier one with the same key.
pub open spec fn with_all<K: Ord, V>(s: Seq<(K, V)>, items: Seq<(K, V)>) -> Seq<(K, V)>
    decreases items.len(),
{
    if items.len() == 0 {
        s
    } else {
        with_pair(with_all(s, items.drop_last()), items.last().0, items.last().1)
    }
}

/// The pairs after each pair of `items` has been offered to `s` in turn, the
/// first pair with a given key being the one that stays.
pub open spec fn with_all_new<K: Ord, V>(s: Seq<(K, V)>, items: Seq<(K, V)>) -> Seq<(K, V)>
    decreases items.len(),
{
    if items.len() == 0 {
        s
    } else {
        with_pair_if_absent(with_all_new(s, items.drop_last()), items.last().0, items.last().1)
    }
}

/// What is left of `s` from index `i` on.
pub open spec fn rest_from<T>(s: Seq<T>, i: usize) -> Seq<T> {
    s.subrange(i as int, s.len() as int)
}

/// What is left from `i` on starts with the element at `i` and goes on with
/// what is left from `i + 1` on; from 0 on, all is left.
pub proof fn lemma_rest_from<T>(s: Seq<T>, i: usize)
    requires
        i <= s.len(),
    ensures
        rest_from(s, i).len() == s.len() - i,
        rest_from(s, 0) == s,
        i < s.len() ==> rest_from(s, i).first() == s[i as int],
        i < s.len() && i < usize::MAX ==> rest_from(s, i).drop_first() == rest_from(
            s,
            (i + 1) as usize,
        ),
{
    assert(rest_from(s, 0) =~= s);
    if i < s.len() && i < usize::MAX {
        assert(rest_from(s, i).drop_first() =~= rest_from(s, (i + 1) as usize));
    }
}

/// Inserting a new key at the index its search gave keeps the keys ascending.
pub proof fn lemma_insert_ascending<K: Ord, V>(s: Seq<(K, V)>, key: K, value: V, i: usize)
    requires
        total_order::<K>(),
        keys_ascending(s),
        found_at(s, key, Err(i)),
    ensures
        keys_ascending(s.insert(i as int, (key, value))),
        with_pair(s, key, value) == s.insert(i as int, (key, value)),
        with_pair_if_absent(s, key, value) == s.insert(i as int, (key, value)),
        !has_key(s, key),
        has_key(with_pair(s, key, value), key),
        value_of(s, key) == None::<V>,
        with_pair(s, key, value).len() == s.len() + 1,
{
    lemma_position(s, key, Err(i));
    let t = s.insert(i as int, (key, value));
    assert forall|a: int, b: int| #![trigger t[a], t[b]] 0 <= a < b < t.len() implies less(
        t[a].0,
        t[b].0,
    ) by {
        if a < i && b == i {
            assert(t[a] == s[a]);
        } else if a < i && b > i {
            assert(t[a] == s[a]);
            assert(t[b] == s[b - 1]);
        } else if a == i {
            assert(t[b] == s[b - 1]);
        } else if a > i {
            assert(t[a] == s[a - 1]);
            assert(t[b] == s[b - 1]);
        } else {
            assert(t[a] == s[a]);
            assert(t[b] == s[b]);
        }
    }
    assert(t[i as int].0 == key);
}

/// Replacing the value of a present key keeps the keys as they are.
pub proof fn lemma_update_ascending<K: Ord, V>(s: Seq<(K, V)>, key: K, value: V, i: usize)
    requires
        total_order::<K>(),
        keys_ascending(s),
        found_at(s, key, Ok(i)),
    ensures
        keys_ascending(s.update(i as int, (s[i as int].0, value))),
        with_pair(s, key, value) == s.update(i as int, (s[i as int].0, value)),
        with_pair_if_absent(s, key, value) == s,
        has_key(s, key),
        value_of(s, key) == Some(s[i as int].1),
        with_pair(s, key, value).len() == s.len(),
{
    lemma_position(s, key, Ok(i));
    let t = s.update(i as int, (s[i as int].0, value));
    assert forall|a: int, b: int| #![trigger t[a], t[b]] 0 <= a < b < t.len() implies less(
        t[a].0,
        t[b].0,
    ) by {
        assert(t[a].0 == s[a].0);
        assert(t[b].0 == s[b].0);
    }
}

/// Removing a pair keeps the keys ascending, and the removed key is gone.
pub proof fn lemma_remove_ascending<K: Ord, V>(s: Seq<(K, V)>, i: int)
    requires
        total_order::<K>(),
        keys_ascending(s),
        0 <= i < s.len(),
    ensures
        keys_ascending(s.remove(i)),
        !has_key(s.remove(i), s[i].0),
{
    let t = s.remove(i);
    assert forall|a: int, b: int| #![trigger t[a], t[b]] 0 <= a < b < t.len() implies less(
        t[a].0,
        t[b].0,
    ) by {
        let a0 = if a < i { a } else { a + 1 };
        let b0 = if b < i { b } else { b + 1 };
        assert(t[a] == s[a0]);
        assert(t[b] == s[b0]);
    }
    if has_key(t, s[i].0) {
        let a = choose|a: int| 0 <= a < t.len() && (#[trigger] t[a]).0 == s[i].0;
        let a0 = if a < i { a } else { a + 1 };
        assert(t[a] == s[a0]);
        lemma_less_irreflexive(s[i].0);
        if a0 < i {
            assert(less(s[a0].0, s[i].0));
        } else {
            assert(less(s[i].0, s[a0].0));
        }
    }
}

/// Cutting ascending pairs at any index leaves two ascending parts, every
/// key of the first smaller than every key of the second.
pub proof fn lemma_cut_ascending<K: Ord, V>(s: Seq<(K, V)>, at: int)
    requires
        keys_ascending(s),
        0 <= at <= s.len(),
    ensures
        keys_ascending(s.subrange(0, at)),
        keys_ascending(s.subrange(at, s.len() as int)),
        s.subrange(0, at) + s.subrange(at, s.len() as int) == s,
        forall|a: int, b: int|
            #![trigger s.subrange(0, at)[a], s.subrange(at, s.len() as int)[b]]
            0 <= a < at && 0 <= b < s.len() - at ==> less(
                s.subrange(0, at)[a].0,
                s.subrange(at, s.len() as int)[b].0,
            ),
{
    let p = s.subrange(0, at);
    let q = s.subrange(at, s.len() as int);
    assert forall|a: int, b: int| #![trigger p[a], p[b]] 0 <= a < b < p.len() implies less(
        p[a].0,
        p[b].0,
    ) by {
        assert(p[a] == s[a]);
        assert(p[b] == s[b]);
    }
    assert forall|a: int, b: int| #![trigger q[a], q[b]] 0 <= a < b < q.len() implies less(
        q[a].0,
        q[b].0,
    ) by {
        assert(q[a] == s[a + at]);
        assert(q[b] == s[b + at]);
    }
    assert forall|a: int, b: int| #![trigger p[a], q[b]] 0 <= a < at && 0 <= b < s.len()
        - at implies less(p[a].0, q[b].0) by {
        assert(p[a] == s[a]);
        assert(q[b] == s[b + at]);
    }
    assert(p + q =~= s);
}

/// Where the pairs are cut for `key`, the first part holds exactly the
/// pairs whose key is smaller than `key`.
pub proof fn lemma_cut_point<K: Ord, V>(s: Seq<(K, V)>, key: K)
    requires
        total_order::<K>(),
        keys_ascending(s),
        found_at(s, key, position(s, key)),
    ensures
        0 <= cut_point(s, key) <= s.len(),
        forall|j: int| 0 <= j < s.len() ==> (j < cut_point(s, key) <==> less((#[trigger] s[j]).0, key)),
{
    let c = cut_point(s, key);
    assert forall|j: int| 0 <= j < s.len() implies (j < c <==> less((#[trigger] s[j]).0, key)) by {
        lemma_less_trichotomy(s[j].0, key);
        match position(s, key) {
            Ok(i) => {
                if j < c {
                    assert(less(s[j].0, s[c].0));
                } else if j > c {
                    assert(less(s[c].0, s[j].0));
                }
            },
            Err(i) => {},
        }
    }
}

/// Giving one pair to ascending pairs keeps them ascending.
pub proof fn lemma_with_pair_ascending<K: Ord, V>(s: Seq<(K, V)>, key: K, value: V)
    requires
        total_order::<K>(),
        keys_ascending(s),
        s.len() <= usize::MAX,
    ensures
        keys_ascending(with_pair(s, key, value)),
        keys_ascending(with_pair_if_absent(s, key, value)),
        s.len() <= with_pair_if_absent(s, key, value).len() <= with_pair(s, key, value).len() <= s.len() + 1,
{
    lemma_position_exists(s, key);
    match position(s, key) {
        Ok(i) => lemma_update_ascending(s, key, value, i),
        Err(i) => lemma_insert_ascending(s, key, value, i),
    }
}

/// Every key has a correct answer in ascending pairs short enough to index.
pub proof fn lemma_position_exists<K: Ord, V>(s: Seq<(K, V)>, key: K)
    requires
        total_order::<K>(),
        keys_ascending(s),
        s.len() <= usize::MAX,
    ensures
        found_at(s, key, position(s, key)),
    decreases s.len(),
{
    if s.len() == 0 {
        assert(found_at(s, key, Err(0usize)));
    } else {
        let n = (s.len() - 1) as usize;
        let t = s.drop_last();
        assert(keys_ascending(t)) by {
            assert forall|a: int, b: int| #![trigger t[a], t[b]] 0 <= a < b < t.len() implies less(
                t[a].0,
                t[b].0,
            ) by {
                assert(t[a] == s[a]);
                assert(t[b] == s[b]);
            }
        }
        lemma_position_exists(t, key);
        lemma_less_trichotomy(s[n as int].0, key);
        if s[n as int].0 == key {
            assert(found_at(s, key, Ok(n)));
        } else if less(s[n as int].0, key) {
            assert forall|j: int| 0 <= j < s.len() implies less((#[trigger] s[j]).0, key) by {
                if j < n {
                    assert(less(s[j].0, s[n as int].0));
                }
            }
            assert(found_at(s, key, Err((n + 1) as usize)));
        } else {
            let r = position(t, key);
            match r {
                Ok(i) => {
                    assert(t[i as int] == s[i as int]);
                    assert(found_at(s, key, Ok(i)));
                },
                Err(i) => {
                    assert forall|j: int| 0 <= j < i implies less((#[trigger] s[j]).0, key) by {
                        assert(t[j] == s[j]);
                    }
                    assert forall|j: int| i <= j < s.len() implies less(key, (#[trigger] s[j]).0) by {
                        if j < n {
                            assert(t[j] == s[j]);
                        }
                    }
                    assert(found_at(s, key, Err(i)));
                },
            }
        }
    }
}

/// The pairs as a mathematical map from each key to its value.
pub open spec fn as_map<K, V>(s: Seq<(K, V)>) -> Map<K, V> {
    Map::new(
        |k: K| has_key(s, k),
        |k: K| s[choose|i: int| 0 <= i < s.len() && (#[trigger] s[i]).0 == k].1,
    )
}

/// In ascending pairs a key stands at one index only, so the map gives each
/// key the value that stands beside it.
pub proof fn lemma_as_map_at<K: Ord, V>(s: Seq<(K, V)>, i: int)
    requires
        total_order::<K>(),
        keys_ascending(s),
        0 <= i < s.len(),
    ensures
        as_map(s).dom().contains(s[i].0),
        as_map(s)[s[i].0] == s[i].1,
{
    let k = s[i].0;
    let j = choose|j: int| 0 <= j < s.len() && (#[trigger] s[j]).0 == k;
    lemma_less_irreflexive(k);
    if j < i {
        assert(less(s[j].0, s[i].0));
    } else if i < j {
        assert(less(s[i].0, s[j].0));
    }
}

/// The value that a search finds is the value that the map gives.
pub proof fn lemma_position_of<K: Ord, V>(s: Seq<(K, V)>, key: K)
    requires
        total_order::<K>(),
        keys_ascending(s),
    ensures
        found_at(s, key, position(s, key)) ==> {
            &&& has_key(s, key) <==> position(s, key) is Ok
            &&& value_of(s, key) == if as_map(s).dom().contains(key) {
                Some(as_map(s)[key])
            } else {
                None::<V>
            }
        },
{
    if found_at(s, key, position(s, key)) {
        lemma_position(s, key, position(s, key));
        match position(s, key) {
            Ok(i) => {
                lemma_as_map_at(s, i as int);
            },
            Err(_) => {},
        }
    }
}

/// Inserting a new key at its place adds that key to the map and changes
/// nothing else.
pub proof fn lemma_insert_as_map<K: Ord, V>(s: Seq<(K, V)>, key: K, value: V, i: usize)
    requires
        total_order::<K>(),
        keys_ascending(s),
        found_at(s, key, Err(i)),
    ensures
        as_map(s.insert(i as int, (key, value))) == as_map(s).insert(key, value),
{
    let t = s.insert(i as int, (key, value));
    let m = as_map(s).insert(key, value);
    lemma_insert_ascending(s, key, value, i);
    assert forall|k: K| as_map(t).dom().contains(k) <==> m.dom().contains(k) by {
        if has_key(t, k) {
            let j = choose|j: int| 0 <= j < t.len() && (#[trigger] t[j]).0 == k;
            if j < i {
                assert(s[j].0 == k);
            } else if j > i {
                assert(s[j - 1].0 == k);
            }
        }
        if has_key(s, k) {
            let j = choose|j: int| 0 <= j < s.len() && (#[trigger] s[j]).0 == k;
            if j < i {
                assert(t[j].0 == k);
            } else {
                assert(t[j + 1].0 == k);
            }
        }
        if k == key {
            assert(t[i as int].0 == k);
        }
    }
    assert forall|k: K| as_map(t).dom().contains(k) implies as_map(t)[k] == m[k] by {
        let j = choose|j: int| 0 <= j < t.len() && (#[trigger] t[j]).0 == k;
        lemma_as_map_at(t, j);
        if j < i {
            assert(t[j] == s[j]);
            lemma_as_map_at(s, j);
        } else if j > i {
            assert(t[j] == s[j - 1]);
            lemma_as_map_at(s, j - 1);
        }
    }
    assert(as_map(t) =~= m);
}

/// Replacing the value of a present key changes that key's value in the
/// map and nothing else.
pub proof fn lemma_update_as_map<K: Ord, V>(s: Seq<(K, V)>, key: K, value: V, i: usize)
    requires
        total_order::<K>(),
        keys_ascending(s),
        found_at(s, key, Ok(i)),
    ensures
        as_map(s.update(i as int, (s[i as int].0, value))) == as_map(s).insert(key, value),
{
    let t = s.update(i as int, (s[i as int].0, value));
    let m = as_map(s).insert(key, value);
    lemma_update_ascending(s, key, value, i);
    assert forall|k: K| as_map(t).dom().contains(k) <==> m.dom().contains(k) by {
        if has_key(t, k) {
            let j = choose|j: int| 0 <= j < t.len() && (#[trigger] t[j]).0 == k;
            assert(s[j].0 == k);
        }
        if has_key(s, k) {
            let j = choose|j: int| 0 <= j < s.len() && (#[trigger] s[j]).0 == k;
            assert(t[j].0 == k);
        }
        if k == key {
            assert(t[i as int].0 == k);
        }
    }
    assert forall|k: K| as_map(t).dom().contains(k) implies as_map(t)[k] == m[k] by {
        let j = choose|j: int| 0 <= j < t.len() && (#[trigger] t[j]).0 == k;
        lemma_as_map_at(t, j);
        if j != i {
            assert(t[j] == s[j]);
            lemma_as_map_at(s, j);
        }
    }
    assert(as_map(t) =~= m);
}

/// Removing a pair takes its key out of the map and changes nothing else.
pub proof fn lemma_remove_as_map<K: Ord, V>(s: Seq<(K, V)>, i: int)
    requires
        total_order::<K>(),
        keys_ascending(s),
        0 <= i < s.len(),
    ensures
        as_map(s.remove(i)) == as_map(s).remove(s[i].0),
{
    let t = s.remove(i);
    let m = as_map(s).remove(s[i].0);
    lemma_remove_ascending(s, i);
    assert forall|k: K| as_map(t).dom().contains(k) <==> m.dom().contains(k) by {
        if has_key(t, k) {
            let j = choose|j: int| 0 <= j < t.len() && (#[trigger] t[j]).0 == k;
            if j < i {
                assert(s[j].0 == k);
            } else {
                assert(s[j + 1].0 == k);
            }
        }
        if has_key(s, k) && k != s[i].0 {
            let j = choose|j: int| 0 <= j < s.len() && (#[trigger] s[j]).0 == k;
            if j < i {
                assert(t[j].0 == k);
            } else {
                assert(t[j - 1].0 == k);
            }
        }
    }
    assert forall|k: K| as_map(t).dom().contains(k) implies as_map(t)[k] == m[k] by {
        let j = choose|j: int| 0 <= j < t.len() && (#[trigger] t[j]).0 == k;
        lemma_as_map_at(t, j);
        if j < i {
            assert(t[j] == s[j]);
            lemma_as_map_at(s, j);
        } else {
            assert(t[j] == s[j + 1]);
            lemma_as_map_at(s, j + 1);
        }
    }
    assert(as_map(t) =~= m);
}

} // verus!
