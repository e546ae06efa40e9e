//! A view into one key's place in a map, found by a single search.
//!
//! An entry borrows the map's pairs exclusively together with the index that
//! the search gave, so that a check followed by an insertion or an update
//! costs one search, not two.

use crate::lookup::{found_at, keys_ascending};
use crate::order::total_order;
use crate::pairs::{lemma_insert_ascending, lemma_remove_ascending, lemma_update_ascending};
use vstd::prelude::*;

verus! {

/// The place of a key that the map does not hold yet.
pub struct VacantEntry<'a, K, V> {
    v: &'a mut Vec<(K, V)>,
    key: K,
    index: usize,
}

/// The place of a key that the map holds.
pub struct OccupiedEntry<'a, K, V> {
    v: &'a mut Vec<(K, V)>,
    index: usize,
}

/// The place of a key in a map, vacant or occupied.
pub enum Entry<'a, K, V> {
    Vacant(VacantEntry<'a, K, V>),
    Occupied(OccupiedEntry<'a, K, V>),
}

impl<'a, K: Ord, V> VacantEntry<'a, K, V> {
    /// The borrow of the map's pairs that the entry holds. Its value when
    /// the borrow ends is what the map then holds.
    pub closed spec fn backing(&self) -> &'a mut Vec<(K, V)> {
        self.v
    }

    /// The map's pairs as they are now.
    pub open spec fn pairs(&self) -> Seq<(K, V)> {
        self.backing()@
    }

    /// The key that waits to be inserted.
    pub closed spec fn pending_key(&self) -> K {
        self.key
    }

    /// The index at which the key would be inserted.
    pub closed spec fn index(&self) -> usize {
        self.index
    }

    pub(crate) fn make(v: &'a mut Vec<(K, V)>, key: K, index: usize) -> (e: Self)
        ensures
            e.pairs() == old(v)@,
            final(e.backing())@ == final(v)@,
            e.pending_key() == key,
            e.index() == index,
    {
        VacantEntry { v, key, index }
    }

    /// The pairs are sorted and the index is the key's insertion point.
    pub open spec fn wf(&self) -> bool {
        &&& keys_ascending(self.pairs())
        &&& found_at(self.pairs(), self.pending_key(), Err(self.index()))
    }

    /// Gives the entry up without inserting: the map stays as it is.
    pub fn finish(self)
        ensures
            final(self.backing())@ == self.pairs(),
    {
    }

    /// Inserts the pending key with `value` at the index found earlier and
    /// hands out the stored value.
    pub fn insert(self, value: V) -> (r: &'a mut V)
        requires
            total_order::<K>(),
            self.wf(),
        ensures
            *r == value,
            final(self.backing())@ == self.pairs().insert(
                self.index() as int,
                (self.pending_key(), *final(r)),
            ),
            keys_ascending(final(self.backing())@),
    {
        let ghost before = self.pairs();
        let ghost key = self.key;
        let index = self.index;
        self.v.insert(index, (self.key, value));
        let r = &mut self.v[index].1;
        proof {
            lemma_insert_ascending(before, key, *final(r), index);
        }
        r
    }
}

impl<'a, K: Ord, V> OccupiedEntry<'a, K, V> {
    /// The borrow of the map's pairs that the entry holds. Its value when
    /// the borrow ends is what the map then holds.
    pub closed spec fn backing(&self) -> &'a mut Vec<(K, V)> {
        self.v
    }

    /// The map's pairs as they are now.
    pub open spec fn pairs(&self) -> Seq<(K, V)> {
        self.backing()@
    }

    /// The index of the pair.
    pub closed spec fn index(&self) -> usize {
        self.index
    }

    pub(crate) fn make(v: &'a mut Vec<(K, V)>, index: usize) -> (e: Self)
        ensures
            e.pairs() == old(v)@,
            final(e.backing())@ == final(v)@,
            e.index() == index,
    {
        OccupiedEntry { v, index }
    }

    /// The pairs are sorted and the index is that of one of them.
    pub open spec fn wf(&self) -> bool {
        &&& keys_ascending(self.pairs())
        &&& self.index() < self.pairs().len()
    }

    /// The pair that the entry stands for.
    pub open spec fn pair(&self) -> (K, V) {
        self.pairs()[self.index() as int]
    }

    /// The entry's key.
    pub fn key(&self) -> (r: &K)
        requires
            self.wf(),
        ensures
            *r == self.pair().0,
    {
        &self.v[self.index].0
    }

    /// The entry's value.
    pub fn get(&self) -> (r: &V)
        requires
            self.wf(),
        ensures
            *r == self.pair().1,
    {
        &self.v[self.index].1
    }

    /// The entry's value, to be changed in place; the entry can be used
    /// again afterwards.
    pub fn get_mut(&mut self) -> (r: &mut V)
        requires
            total_order::<K>(),
            old(self).wf(),
        ensures
            *r == old(self).pair().1,
            final(self).index() == old(self).index(),
            final(self).pairs() == old(self).pairs().update(
                old(self).index() as int,
                (old(self).pair().0, *final(r)),
            ),
            final(final(self).backing())@ == final(old(self).backing())@,
            final(self).wf(),
    {
        let ghost before = self.pairs();
        let index = self.index;
        let r = &mut self.v[index].1;
        proof {
            lemma_update_ascending(before, before[index as int].0, *final(r), index);
        }
        r
    }

    /// The entry's value, to be changed in place for as long as the map is
    /// borrowed.
    pub fn into_mut(self) -> (r: &'a mut V)
        requires
            total_order::<K>(),
            self.wf(),
        ensures
            *r == self.pair().1,
            final(self.backing())@ == self.pairs().update(
                self.index() as int,
                (self.pair().0, *final(r)),
            ),
            keys_ascending(final(self.backing())@),
    {
        let ghost before = self.pairs();
        let index = self.index;
        let r = &mut self.v[index].1;
        proof {
            lemma_update_ascending(before, before[index as int].0, *final(r), index);
        }
        r
    }

    /// Puts `value` in the place of the entry's value and returns the old one.
    pub fn insert(&mut self, value: V) -> (r: V)
        requires
            total_order::<K>(),
            old(self).wf(),
        ensures
            r == old(self).pair().1,
            final(self).index() == old(self).index(),
            final(self).pairs() == old(self).pairs().update(
                old(self).index() as int,
                (old(self).pair().0, value),
            ),
            final(final(self).backing())@ == final(old(self).backing())@,
            final(self).wf(),
    {
        proof {
            lemma_update_ascending(self.pairs(), self.pair().0, value, self.index);
        }
        let mut value = value;
        std::mem::swap(&mut self.v[self.index].1, &mut value);
        value
    }

    /// Gives the entry up: the map stays as the entry's methods have left it.
    pub fn finish(self)
        ensures
            final(self.backing())@ == self.pairs(),
    {
    }

    /// Takes the pair out of the map and returns its value.
    pub fn remove(self) -> (r: V)
        requires
            total_order::<K>(),
            self.wf(),
        ensures
            r == self.pair().1,
            final(self.backing())@ == self.pairs().remove(self.index() as int),
            keys_ascending(final(self.backing())@),
    {
        proof {
            lemma_remove_ascending(self.pairs(), self.index as int);
        }
        let (_, value) = self.v.remove(self.index);
        value
    }
}

impl<'a, K: Ord, V> Entry<'a, K, V> {
    /// The map's pairs as they are now.
    pub open spec fn pairs(&self) -> Seq<(K, V)> {
        match self {
            Entry::Vacant(e) => e.pairs(),
            Entry::Occupied(e) => e.pairs(),
        }
    }

    /// The index that the search gave.
    pub open spec fn index(&self) -> usize {
        match self {
            Entry::Vacant(e) => e.index(),
            Entry::Occupied(e) => e.index(),
        }
    }

    /// Whichever the entry is, it is well formed.
    pub open spec fn wf(&self) -> bool {
        match self {
            Entry::Vacant(e) => e.wf(),
            Entry::Occupied(e) => e.wf(),
        }
    }

    /// The pairs that `or_insert` leaves when the value handed out ends up
    /// as `last`.
    pub open spec fn pairs_with(&self, last: V) -> Seq<(K, V)> {
        match self {
            Entry::Vacant(e) => e.pairs().insert(e.index() as int, (e.pending_key(), last)),
            Entry::Occupied(e) => e.pairs().update(e.index() as int, (e.pair().0, last)),
        }
    }

    /// The value of an occupied entry; `default`, inserted under the pending
    /// key, for a vacant one.
    pub fn or_insert(self, default: V) -> (r: &'a mut V)
        requires
            total_order::<K>(),
            self.wf(),
        ensures
            self is Occupied ==> *r == self->Occupied_0.pair().1,
            self is Vacant ==> *r == default,
            self is Occupied ==> final(self->Occupied_0.backing())@ == self.pairs_with(*final(r)),
            self is Vacant ==> final(self->Vacant_0.backing())@ == self.pairs_with(*final(r)),
            keys_ascending(self.pairs_with(*final(r))),
    {
        match self {
            Entry::Occupied(entry) => entry.into_mut(),
            Entry::Vacant(entry) => entry.insert(default),
        }
    }

    /// As `or_insert`, the default being produced only when the entry is
    /// vacant, and then by one call.
    pub fn or_insert_with<F: FnOnce() -> V>(self, default: F) -> (r: &'a mut V)
        requires
            total_order::<K>(),
            self.wf(),
            self is Vacant ==> default.requires(()),
        ensures
            self is Occupied ==> *r == self->Occupied_0.pair().1,
            self is Vacant ==> default.ensures((), *r),
            self is Occupied ==> final(self->Occupied_0.backing())@ == self.pairs_with(*final(r)),
            self is Vacant ==> final(self->Vacant_0.backing())@ == self.pairs_with(*final(r)),
            keys_ascending(self.pairs_with(*final(r))),
    {
        match self {
            Entry::Occupied(entry) => entry.into_mut(),
            Entry::Vacant(entry) => entry.insert(default()),
        }
    }
}

} // verus!
