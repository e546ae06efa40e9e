//! The map itself: a vector of pairs kept strictly ascending by key, and a
//! search strategy that finds a key's place in it.

use crate::entry::{Entry, OccupiedEntry, VacantEntry};
use crate::iter::{keys_of, values_of, IntoIter, Iter, Keys, Values};
use crate::iter_mut::{IterMut, ValuesMut};
use crate::lookup::{has_key, keys_ascending, position, BinarySearch, Lookup};
use crate::merge::{filled, lemma_with_all_new_fills, lemma_with_all_overwrites, overwritten};
use crate::order::{less, total_order};
use crate::pairs::{
    as_map, cut_point, lemma_cut_ascending, lemma_cut_point, lemma_insert_as_map,
    lemma_insert_ascending, lemma_remove_as_map, lemma_remove_ascending, lemma_update_as_map,
    lemma_update_ascending, lemma_position_of, value_of, with_all, with_all_new, with_pair,
    with_pair_if_absent, without_key,
};
use vstd::layout::size_of;
use vstd::prelude::*;

verus! {

/// A map from keys to values, stored as one vector of pairs sorted by key.
pub struct FlatMap<K, V, L = BinarySearch> {
    v: Vec<(K, V)>,
    l: L,
}

/// A vector can be asked for room for `count` elements of type `T`: the
/// count fits a machine word, and the bytes do not exceed what one
/// allocation may hold.
pub open spec fn room_fits<T>(count: int) -> bool {
    &&& count <= usize::MAX
    &&& count * size_of::<T>() <= isize::MAX
}

/// Whether a vector can be asked for room for `count` elements of type `T`.
pub fn has_room<T>(count: usize) -> (r: bool)
    ensures
        r == room_fits::<T>(count as int),
{
    let size: usize = core::mem::size_of::<T>();
    match count.checked_mul(size) {
        None => false,
        Some(bytes) => bytes <= isize::MAX as usize,
    }
}

/// `Vec::capacity`: the number of elements the vector can hold without
/// allocating again, which is never less than its length.
#[verifier::external_body]
fn vec_capacity<T>(v: &Vec<T>) -> (r: usize)
    ensures
        r >= v@.len(),
{
    v.capacity()
}

/// `Vec::reserve_exact`: makes room for `additional` more elements and
/// leaves the elements as they are. The call is left out where the number
/// of elements asked for would not fit a machine word, or their bytes would
/// exceed `isize::MAX`.
#[verifier::external_body]
fn vec_reserve_exact<T>(v: &mut Vec<T>, additional: usize)
    requires
        room_fits::<T>(old(v)@.len() + additional),
    ensures
        final(v)@ == old(v)@,
{
    v.reserve_exact(additional)
}

/// `Vec::shrink_to_fit`: gives back unused room and leaves the elements as
/// they are.
#[verifier::external_body]
fn vec_shrink_to_fit<T>(v: &mut Vec<T>)
    ensures
        final(v)@ == old(v)@,
{
    v.shrink_to_fit()
}

impl<K, V, L> View for FlatMap<K, V, L> {
    type V = Seq<(K, V)>;

    /// The pairs in the order in which the map holds and yields them.
    closed spec fn view(&self) -> Seq<(K, V)> {
        self.v@
    }
}

impl<K, V> FlatMap<K, V, BinarySearch> {
    /// An empty map that searches by halving.
    pub fn new() -> (r: Self)
        ensures
            r@ == Seq::<(K, V)>::empty(),
    {
        FlatMap { v: Vec::new(), l: BinarySearch }
    }

    /// An empty map that searches by halving, with room for `capacity` pairs.
    pub fn with_capacity(capacity: usize) -> (r: Self)
        requires
            room_fits::<(K, V)>(capacity as int),
        ensures
            r@ == Seq::<(K, V)>::empty(),
    {
        FlatMap { v: Vec::with_capacity(capacity), l: BinarySearch }
    }
}

impl<K, V, L> FlatMap<K, V, L> {
    /// The strategy that the map searches with.
    pub closed spec fn strategy(&self) -> L {
        self.l
    }

    /// An empty map that searches with `l`.
    pub fn with_lookup(l: L) -> (r: Self)
        ensures
            r@ == Seq::<(K, V)>::empty(),
            r.strategy() == l,
    {
        FlatMap { v: Vec::new(), l }
    }

    /// The number of pairs the map can hold without allocating again.
    pub fn capacity(&self) -> (r: usize)
        ensures
            r >= self@.len(),
    {
        vec_capacity(&self.v)
    }

    /// Makes room for `additional` more pairs; the pairs stay as they are.
    pub fn reserve(&mut self, additional: usize)
        requires
            room_fits::<(K, V)>(old(self)@.len() + additional),
        ensures
            final(self)@ == old(self)@,
            final(self).strategy() == old(self).strategy(),
    {
        self.v.reserve(additional)
    }

    /// Makes room for exactly `additional` more pairs; the pairs stay as
    /// they are.
    pub fn reserve_exact(&mut self, additional: usize)
        requires
            room_fits::<(K, V)>(old(self)@.len() + additional),
        ensures
            final(self)@ == old(self)@,
            final(self).strategy() == old(self).strategy(),
    {
        vec_reserve_exact(&mut self.v, additional)
    }

    /// Gives back unused room; the pairs stay as they are.
    pub fn shrink_to_fit(&mut self)
        ensures
            final(self)@ == old(self)@,
            final(self).strategy() == old(self).strategy(),
    {
        vec_shrink_to_fit(&mut self.v)
    }

    /// The number of pairs.
    pub fn len(&self) -> (r: usize)
        ensures
            r == self@.len(),
    {
        self.v.len()
    }

    /// Whether the map holds no pair.
    pub fn is_empty(&self) -> (r: bool)
        ensures
            r <==> self@.len() == 0,
    {
        self.v.is_empty()
    }

    /// Removes every pair.
    pub fn clear(&mut self)
        ensures
            final(self)@ == Seq::<(K, V)>::empty(),
            final(self).strategy() == old(self).strategy(),
    {
        self.v.clear()
    }

    /// An iterator over the pairs, in ascending order of their keys.
    pub fn iter(&self) -> (r: Iter<'_, K, V>)
        ensures
            r@ == self@,
    {
        Iter::over(self.v.as_slice())
    }

    /// An iterator over the pairs, in ascending order of their keys, that
    /// hands out each value to be changed. The map's pairs are what the
    /// iterator leaves when its borrow ends.
    pub fn iter_mut(&mut self) -> (r: IterMut<'_, K, V>)
        ensures
            r@ == old(self)@,
            final(self)@ == final(r.backing())@,
            final(self).strategy() == old(self).strategy(),
    {
        IterMut::over(self.v.as_mut_slice())
    }

    /// An iterator over the values, in ascending order of their keys, that
    /// hands out each value to be changed. The map's pairs are what the
    /// iterator leaves when its borrow ends.
    pub fn values_mut(&mut self) -> (r: ValuesMut<'_, K, V>)
        ensures
            r@ == old(self)@,
            final(self)@ == final(r.backing())@,
            final(self).strategy() == old(self).strategy(),
    {
        ValuesMut::over(self.iter_mut())
    }

    /// An iterator over the keys, in ascending order.
    pub fn keys(&self) -> (r: Keys<'_, K, V>)
        ensures
            r@ == keys_of(self@),
    {
        Keys::over(self.iter())
    }

    /// An iterator over the values, in ascending order of their keys.
    pub fn values(&self) -> (r: Values<'_, K, V>)
        ensures
            r@ == values_of(self@),
    {
        Values::over(self.iter())
    }

    /// An iterator that takes the pairs over and hands them out in
    /// ascending order of their keys.
    pub fn into_iter(self) -> (r: IntoIter<K, V>)
        ensures
            r@ == self@,
    {
        let r = IntoIter::from_reversed(reversed(self.v));
        assert(r@ =~= self@);
        r
    }

    /// The pairs as a slice, in ascending order of their keys.
    pub fn as_slice(&self) -> (r: &[(K, V)])
        ensures
            r@ == self@,
    {
        self.v.as_slice()
    }

    /// The pairs, in ascending order of their keys.
    pub fn into_inner(self) -> (r: Vec<(K, V)>)
        ensures
            r@ == self@,
    {
        self.v
    }
}

impl<K: Ord, V, L> FlatMap<K, V, L> {
    /// The map's invariant: keys strictly ascending, none twice.
    pub open spec fn wf(&self) -> bool {
        keys_ascending(self@)
    }

    /// The map as a mathematical map from each key to its value.
    pub open spec fn as_map(&self) -> Map<K, V> {
        as_map(self@)
    }
}

impl<K: Ord, V, L: Lookup<K, V>> FlatMap<K, V, L> {
    /// Gives `key` the value `value`. Where the key was present its value is
    /// replaced in place and the old one returned; where it was not, the
    /// pair is inserted at its sorted position.
    pub fn insert(&mut self, key: K, value: V) -> (r: Option<V>)
        requires
            total_order::<K>(),
            old(self).wf(),
        ensures
            final(self).wf(),
            final(self)@ == with_pair(old(self)@, key, value),
            r == value_of(old(self)@, key),
            r is Some <==> has_key(old(self)@, key),
            r is Some ==> final(self)@.len() == old(self)@.len(),
            r is None ==> final(self)@.len() == old(self)@.len() + 1,
            has_key(final(self)@, key),
            final(self).as_map() == old(self).as_map().insert(key, value),
            r == if old(self).as_map().dom().contains(key) {
                Some(old(self).as_map()[key])
            } else {
                None
            },
            final(self).strategy() == old(self).strategy(),
    {
        proof {
            lemma_position_of(self.v@, key);
        }
        match self.l.lookup(self.v.as_slice(), &key) {
            Err(i) => {
                proof {
                    lemma_insert_ascending(self.v@, key, value, i);
                    lemma_insert_as_map(self.v@, key, value, i);
                }
                self.v.insert(i, (key, value));
                None
            },
            Ok(i) => {
                proof {
                    lemma_update_ascending(self.v@, key, value, i);
                    lemma_update_as_map(self.v@, key, value, i);
                    assert(self.v@.update(i as int, (self.v@[i as int].0, value))[i as int].0
                        == key);
                }
                let mut value = value;
                std::mem::swap(&mut self.v[i].1, &mut value);
                Some(value)
            },
        }
    }

    /// The value of `q`, if the map holds that key.
    pub fn get(&self, q: &K) -> (r: Option<&V>)
        requires
            total_order::<K>(),
            self.wf(),
        ensures
            match r {
                Some(value) => value_of(self@, *q) == Some(*value),
                None => value_of(self@, *q) is None,
            },
            r is Some <==> has_key(self@, *q),
            r == if self.as_map().dom().contains(*q) {
                Some(&self.as_map()[*q])
            } else {
                None
            },
    {
        proof {
            lemma_position_of(self.v@, *q);
        }
        match self.l.lookup(self.v.as_slice(), q) {
            Err(_) => None,
            Ok(idx) => Some(&self.v[idx].1),
        }
    }

    /// Whether the map holds the key `k`.
    pub fn contains_key(&self, k: &K) -> (r: bool)
        requires
            total_order::<K>(),
            self.wf(),
        ensures
            r == has_key(self@, *k),
            r == self.as_map().dom().contains(*k),
    {
        self.get(k).is_some()
    }

    /// The value of `key`, which the map must hold.
    pub fn index(&self, key: &K) -> (r: &V)
        requires
            total_order::<K>(),
            self.wf(),
            has_key(self@, *key),
        ensures
            value_of(self@, *key) == Some(*r),
            *r == self.as_map()[*key],
    {
        proof {
            lemma_position_of(self.v@, *key);
        }
        match self.l.lookup(self.v.as_slice(), key) {
            Err(_) => {
                proof {
                    assert(false);
                }
                &self.v[0].1
            },
            Ok(idx) => &self.v[idx].1,
        }
    }

    /// The value of `q`, to be changed in place, if the map holds that key.
    /// The keys cannot be changed through it.
    pub fn get_mut(&mut self, q: &K) -> (r: Option<&mut V>)
        requires
            total_order::<K>(),
            old(self).wf(),
        ensures
            r is Some <==> has_key(old(self)@, *q),
            match r {
                Some(value) => {
                    &&& value_of(old(self)@, *q) == Some(*value)
                    &&& position(old(self)@, *q) is Ok
                    &&& final(self)@ == with_pair(old(self)@, *q, *final(value))
                    &&& final(self).as_map() == old(self).as_map().insert(*q, *final(value))
                },
                None => final(self)@ == old(self)@,
            },
            final(self).wf(),
            final(self).strategy() == old(self).strategy(),
    {
        match self.l.lookup(self.v.as_slice(), q) {
            Err(_) => None,
            Ok(idx) => {
                let ghost before = self.v@;
                let value = &mut self.v[idx].1;
                proof {
                    lemma_update_ascending(before, *q, *final(value), idx);
                    lemma_update_as_map(before, *q, *final(value), idx);
                }
                Some(value)
            },
        }
    }

    /// Takes the pair of `q` out of the map, if it holds that key, and
    /// returns its value. An absent key leaves the map as it is.
    pub fn remove(&mut self, q: &K) -> (r: Option<V>)
        requires
            total_order::<K>(),
            old(self).wf(),
        ensures
            final(self).wf(),
            final(self)@ == without_key(old(self)@, *q),
            r == value_of(old(self)@, *q),
            r is Some <==> has_key(old(self)@, *q),
            r is None ==> final(self)@ == old(self)@,
            r is Some ==> final(self)@.len() + 1 == old(self)@.len(),
            !has_key(final(self)@, *q),
            final(self).as_map() == old(self).as_map().remove(*q),
            r == if old(self).as_map().dom().contains(*q) {
                Some(old(self).as_map()[*q])
            } else {
                None
            },
            final(self).strategy() == old(self).strategy(),
    {
        proof {
            lemma_position_of(self.v@, *q);
        }
        match self.l.lookup(self.v.as_slice(), q) {
            Err(_) => {
                proof {
                    assert(as_map(self.v@).remove(*q) =~= as_map(self.v@));
                }
                None
            },
            Ok(i) => {
                proof {
                    lemma_remove_ascending(self.v@, i as int);
                    lemma_remove_as_map(self.v@, i as int);
                }
                let (_, value) = self.v.remove(i);
                Some(value)
            },
        }
    }

    /// Searches once for `key` and returns its place: occupied where the map
    /// holds the key, vacant where it does not. The map's pairs are what the
    /// entry leaves when its borrow ends.
    pub fn entry(&mut self, key: K) -> (e: Entry<'_, K, V>)
        requires
            total_order::<K>(),
            old(self).wf(),
        ensures
            e.wf(),
            e.pairs() == old(self)@,
            e.index() == cut_point(old(self)@, key),
            match e {
                Entry::Vacant(vacant) => {
                    &&& !has_key(old(self)@, key)
                    &&& vacant.pending_key() == key
                    &&& final(self)@ == final(vacant.backing())@
                },
                Entry::Occupied(occupied) => {
                    &&& has_key(old(self)@, key)
                    &&& occupied.pair().0 == key
                    &&& final(self)@ == final(occupied.backing())@
                },
            },
            final(self).strategy() == old(self).strategy(),
    {
        match self.l.lookup(self.v.as_slice(), &key) {
            Err(i) => Entry::Vacant(VacantEntry::make(&mut self.v, key, i)),
            Ok(i) => Entry::Occupied(OccupiedEntry::make(&mut self.v, i)),
        }
    }
}

/// The elements of `v` in the opposite order.
pub(crate) fn reversed<T>(v: Vec<T>) -> (r: Vec<T>)
    ensures
        r@.len() == v@.len(),
        forall|j: int| 0 <= j < r@.len() ==> #[trigger] r@[j] == v@[v@.len() - 1 - j],
{
    let ghost src = v@;
    let mut v = v;
    let mut r: Vec<T> = Vec::new();
    while v.len() > 0
        invariant
            v@.len() + r@.len() == src.len(),
            forall|j: int| 0 <= j < v@.len() ==> #[trigger] v@[j] == src[j],
            forall|j: int| 0 <= j < r@.len() ==> #[trigger] r@[j] == src[src.len() - 1 - j],
        decreases v@.len(),
    {
        match v.pop() {
            Some(x) => r.push(x),
            None => {},
        }
    }
    r
}

impl<K: Ord, V, L: Lookup<K, V>> FlatMap<K, V, L> {
    /// Gives each pair of `items` to the map in turn, as `insert` does: of
    /// two pairs with one key the later one's value stays.
    pub fn extend(&mut self, items: Vec<(K, V)>)
        requires
            total_order::<K>(),
            old(self).wf(),
        ensures
            final(self).wf(),
            final(self)@ == with_all(old(self)@, items@),
            old(self)@.len() + items@.len() <= usize::MAX ==> final(self).as_map() == overwritten(
                old(self).as_map(),
                items@,
            ),
            final(self).strategy() == old(self).strategy(),
    {
        proof {
            if self@.len() + items@.len() <= usize::MAX {
                lemma_with_all_overwrites(self@, items@);
            }
        }
        let ghost start = self@;
        let ghost src = items@;
        let mut rest = reversed(items);
        assert(src.subrange(0, 0) =~= Seq::<(K, V)>::empty());
        while rest.len() > 0
            invariant
                total_order::<K>(),
                self.wf(),
                self.strategy() == old(self).strategy(),
                rest@.len() <= src.len(),
                forall|j: int| 0 <= j < rest@.len() ==> #[trigger] rest@[j] == src[src.len() - 1 - j],
                self@ == with_all(start, src.subrange(0, src.len() - rest@.len())),
            decreases rest@.len(),
        {
            let ghost n = src.len() - rest@.len();
            match rest.pop() {
                Some((key, value)) => {
                    proof {
                        let done = src.subrange(0, n + 1);
                        assert(done.drop_last() =~= src.subrange(0, n));
                        assert(done.last() == src[n]);
                    }
                    self.insert(key, value);
                },
                None => {},
            }
        }
        assert(src.subrange(0, src.len() as int) =~= src);
    }

    /// Moves every pair of `other` into the map, in `other`'s order and as
    /// `insert` does, so that for a key that both maps hold the value of
    /// `other` stays. `other` is left empty.
    pub fn append(&mut self, other: &mut Self)
        requires
            total_order::<K>(),
            old(self).wf(),
        ensures
            final(self).wf(),
            final(self)@ == with_all(old(self)@, old(other)@),
            old(self)@.len() + old(other)@.len() <= usize::MAX ==> final(self).as_map()
                == overwritten(old(self).as_map(), old(other)@),
            final(other)@ == Seq::<(K, V)>::empty(),
            final(self).strategy() == old(self).strategy(),
            final(other).strategy() == old(other).strategy(),
    {
        let more: usize = other.v.len();
        match self.v.len().checked_add(more) {
            Some(count) => {
                if has_room::<(K, V)>(count) {
                    self.reserve(more);
                }
            },
            None => {},
        }
        let mut items: Vec<(K, V)> = Vec::new();
        std::mem::swap(&mut other.v, &mut items);
        self.extend(items);
    }
}

impl<K: Ord, V, L: Lookup<K, V> + Clone> FlatMap<K, V, L> {
    /// Cuts the map in two at `key`: the pairs whose keys are smaller than
    /// `key` stay, the others are returned as a map of their own.
    pub fn split_off(&mut self, key: &K) -> (r: Self)
        requires
            total_order::<K>(),
            old(self).wf(),
        ensures
            final(self).wf(),
            r.wf(),
            final(self)@ == old(self)@.subrange(0, cut_point(old(self)@, *key)),
            r@ == old(self)@.subrange(cut_point(old(self)@, *key), old(self)@.len() as int),
            final(self)@ + r@ == old(self)@,
            forall|j: int| 0 <= j < final(self)@.len() ==> less((#[trigger] final(self)@[j]).0, *key),
            forall|j: int| 0 <= j < r@.len() ==> !less((#[trigger] r@[j]).0, *key),
            final(self).strategy() == old(self).strategy(),
            cloned::<L>(old(self).strategy(), r.strategy()),
    {
        let at = match self.l.lookup(self.v.as_slice(), key) {
            Err(at) => at,
            Ok(at) => at,
        };
        proof {
            lemma_cut_ascending(self.v@, at as int);
            lemma_cut_point(self.v@, *key);
        }
        let v = self.v.split_off(at);
        FlatMap { v, l: self.l.clone() }
    }
}

impl<K: Ord, V> FlatMap<K, V, BinarySearch> {
    /// A map of the pairs of `items`. Of several pairs with one key the
    /// first one stays and the later ones are dropped.
    pub fn from_iter(items: Vec<(K, V)>) -> (r: Self)
        requires
            total_order::<K>(),
        ensures
            r.wf(),
            r@ == with_all_new(Seq::<(K, V)>::empty(), items@),
            r.as_map() == filled(Map::<K, V>::empty(), items@),
    {
        let ghost src = items@;
        let count = items.len();
        proof {
            lemma_with_all_new_fills(Seq::<(K, V)>::empty(), items@);
            assert(as_map(Seq::<(K, V)>::empty()) =~= Map::<K, V>::empty());
        }
        let mut rest = reversed(items);
        let mut map: FlatMap<K, V, BinarySearch> = if has_room::<(K, V)>(count) {
            FlatMap::with_capacity(count)
        } else {
            FlatMap::new()
        };
        assert(src.subrange(0, 0) =~= Seq::<(K, V)>::empty());
        while rest.len() > 0
            invariant
                total_order::<K>(),
                map.wf(),
                rest@.len() <= src.len(),
                forall|j: int| 0 <= j < rest@.len() ==> #[trigger] rest@[j] == src[src.len() - 1 - j],
                map@ == with_all_new(
                    Seq::<(K, V)>::empty(),
                    src.subrange(0, src.len() - rest@.len()),
                ),
            decreases rest@.len(),
        {
            let ghost n = src.len() - rest@.len();
            match rest.pop() {
                Some((key, value)) => {
                    proof {
                        let done = src.subrange(0, n + 1);
                        assert(done.drop_last() =~= src.subrange(0, n));
                        assert(done.last() == src[n]);
                    }
                    map.insert_new(key, value);
                },
                None => {},
            }
        }
        assert(src.subrange(0, src.len() as int) =~= src);
        map
    }
}

impl<K: Ord, V, L: Lookup<K, V>> FlatMap<K, V, L> {
    /// Gives `key` the value `value` unless the key has one already.
    fn insert_new(&mut self, key: K, value: V)
        requires
            total_order::<K>(),
            old(self).wf(),
        ensures
            final(self).wf(),
            final(self)@ == with_pair_if_absent(old(self)@, key, value),
            final(self).strategy() == old(self).strategy(),
    {
        match self.l.lookup(self.v.as_slice(), &key) {
            Err(i) => {
                proof {
                    lemma_insert_ascending(self.v@, key, value, i);
                }
                self.v.insert(i, (key, value));
            },
            Ok(i) => {
                proof {
                    lemma_update_ascending(self.v@, key, value, i);
                }
            },
        }
    }
}

impl<K: Clone, V: Clone, L: Clone> Clone for FlatMap<K, V, L> {
    /// A map of clones of the pairs, in the same order.
    fn clone(&self) -> (r: Self)
        ensures
            r@.len() == self@.len(),
            forall|i: int| 0 <= i < self@.len() ==> cloned::<(K, V)>(#[trigger] self@[i], r@[i]),
            cloned::<L>(self.strategy(), r.strategy()),
    {
        FlatMap { v: self.v.clone(), l: self.l.clone() }
    }
}

impl<K, V, L: Default> Default for FlatMap<K, V, L> {
    /// An empty map with the strategy's default.
    fn default() -> (r: Self)
        ensures
            r@ == Seq::<(K, V)>::empty(),
            call_ensures(L::default, (), r.strategy()),
    {
        FlatMap { v: Vec::new(), l: L::default() }
    }
}

} // verus!
