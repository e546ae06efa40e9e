//! What a map holds after many pairs have been given to it, said key by
//! key: which keys it has, and which of several values for one key stays.

use crate::lookup::{keys_ascending, position};
use crate::order::total_order;
use crate::pairs::{
    as_map, lemma_insert_as_map, lemma_position_exists, lemma_position_of, lemma_update_as_map,
    lemma_with_pair_ascending, with_all, with_all_new, with_pair, with_pair_if_absent,
};
use vstd::prelude::*;

verus! {

/// The value of the last pair of `items` that has the key `k`, if any has.
pub open spec fn last_value<K, V>(items: Seq<(K, V)>, k: K) -> Option<V>
    decreases items.len(),
{
    if items.len() == 0 {
        None
    } else if items.last().0 == k {
        Some(items.last().1)
    } else {
        last_value(items.drop_last(), k)
    }
}

/// The value of the first pair of `items` that has the key `k`, if any has.
pub open spec fn first_value<K, V>(items: Seq<(K, V)>, k: K) -> Option<V>
    decreases items.len(),
{
    if items.len() == 0 {
        None
    } else {
        match first_value(items.drop_last(), k) {
            Some(v) => Some(v),
            None => if items.last().0 == k {
                Some(items.last().1)
            } else {
                None
            },
        }
    }
}

/// The map `m` after the pairs of `items` have been written over it: for a
/// key that `items` has, the value of its last pair there.
pub open spec fn overwritten<K, V>(m: Map<K, V>, items: Seq<(K, V)>) -> Map<K, V> {
    Map::new(
        |k: K| m.dom().contains(k) || last_value(items, k) is Some,
        |k: K|
            match last_value(items, k) {
                Some(v) => v,
                None => m[k],
            },
    )
}

/// The map `m` after the pairs of `items` have filled its gaps: a key that
/// `m` has keeps its value, and a new key gets the value of its first pair
/// in `items`.
pub open spec fn filled<K, V>(m: Map<K, V>, items: Seq<(K, V)>) -> Map<K, V> {
    Map::new(
        |k: K| m.dom().contains(k) || first_value(items, k) is Some,
        |k: K|
            if m.dom().contains(k) {
                m[k]
            } else {
                first_value(items, k).unwrap()
            },
    )
}

/// Giving one pair to the pairs is an insertion into the map.
pub proof fn lemma_with_pair_as_map<K: Ord, V>(s: Seq<(K, V)>, key: K, value: V)
    requires
        total_order::<K>(),
        keys_ascending(s),
        s.len() <= usize::MAX,
    ensures
        as_map(with_pair(s, key, value)) == as_map(s).insert(key, value),
        as_map(with_pair_if_absent(s, key, value)) == if as_map(s).dom().contains(key) {
            as_map(s)
        } else {
            as_map(s).insert(key, value)
        },
{
    lemma_position_exists(s, key);
    lemma_position_of(s, key);
    match position(s, key) {
        Ok(i) => lemma_update_as_map(s, key, value, i),
        Err(i) => lemma_insert_as_map(s, key, value, i),
    }
}

/// Pairs given in turn write over the map: afterwards it has the keys it
/// had and those of the pairs given, and for a key given several times the
/// value given last.
pub proof fn lemma_with_all_overwrites<K: Ord, V>(s: Seq<(K, V)>, items: Seq<(K, V)>)
    requires
        total_order::<K>(),
        keys_ascending(s),
        s.len() + items.len() <= usize::MAX,
    ensures
        keys_ascending(with_all(s, items)),
        with_all(s, items).len() <= s.len() + items.len(),
        as_map(with_all(s, items)) == overwritten(as_map(s), items),
    decreases items.len(),
{
    if items.len() == 0 {
        assert(as_map(s) =~= overwritten(as_map(s), items));
    } else {
        let head = items.drop_last();
        let t = with_all(s, head);
        lemma_with_all_overwrites(s, head);
        lemma_with_pair_ascending(t, items.last().0, items.last().1);
        lemma_with_pair_as_map(t, items.last().0, items.last().1);
        assert(as_map(t).insert(items.last().0, items.last().1) =~= overwritten(as_map(s), items));
    }
}

/// Pairs offered in turn fill the map's gaps: afterwards it has the keys it
/// had, with their values, and those of the pairs offered, and for a new
/// key offered several times the value offered first.
pub proof fn lemma_with_all_new_fills<K: Ord, V>(s: Seq<(K, V)>, items: Seq<(K, V)>)
    requires
        total_order::<K>(),
        keys_ascending(s),
        s.len() + items.len() <= usize::MAX,
    ensures
        keys_ascending(with_all_new(s, items)),
        with_all_new(s, items).len() <= s.len() + items.len(),
        as_map(with_all_new(s, items)) == filled(as_map(s), items),
    decreases items.len(),
{
    if items.len() == 0 {
        assert(as_map(s) =~= filled(as_map(s), items));
    } else {
        let head = items.drop_last();
        let t = with_all_new(s, head);
        lemma_with_all_new_fills(s, head);
        lemma_with_pair_ascending(t, items.last().0, items.last().1);
        lemma_with_pair_as_map(t, items.last().0, items.last().1);
        assert(as_map(with_pair_if_absent(t, items.last().0, items.last().1)) =~= filled(
            as_map(s),
            items,
        ));
    }
}

} // verus!
