//! Iterators over a map's pairs, in ascending order of the keys from the
//! front and in descending order from the back.

use std::collections::VecDeque;
use vstd::prelude::*;

verus! {

/// The keys of `s`, in order.
pub open spec fn keys_of<K, V>(s: Seq<(K, V)>) -> Seq<K> {
    Seq::new(s.len(), |i: int| s[i].0)
}

/// The values of `s`, in order.
pub open spec fn values_of<K, V>(s: Seq<(K, V)>) -> Seq<V> {
    Seq::new(s.len(), |i: int| s[i].1)
}

/// Walks the pairs of a map without changing them.
pub struct Iter<'a, K, V> {
    s: &'a [(K, V)],
}

/// Walks the keys of a map.
pub struct Keys<'a, K, V> {
    inner: Iter<'a, K, V>,
}

/// Walks the values of a map without changing them.
pub struct Values<'a, K, V> {
    inner: Iter<'a, K, V>,
}

/// Hands out the pairs of a map that it has taken over.
pub struct IntoIter<K, V> {
    inner: VecDeque<(K, V)>,
}

impl<'a, K, V> View for Iter<'a, K, V> {
    type V = Seq<(K, V)>;

    /// The pairs still to come, the next one first.
    closed spec fn view(&self) -> Seq<(K, V)> {
        self.s@
    }
}

impl<'a, K, V> Iter<'a, K, V> {
    pub(crate) fn over(s: &'a [(K, V)]) -> (r: Self)
        ensures
            r@ == s@,
    {
        Iter { s }
    }

    /// The first of the pairs still to come, if there is one.
    pub fn next(&mut self) -> (r: Option<(&'a K, &'a V)>)
        ensures
            old(self)@.len() == 0 ==> r is None && final(self)@ == old(self)@,
            old(self)@.len() > 0 ==> r == Some((&old(self)@.first().0, &old(self)@.first().1))
                && final(self)@ == old(self)@.drop_first(),
    {
        let s: &'a [(K, V)] = self.s;
        if s.len() == 0 {
            None
        } else {
            let (head, tail) = s.split_at(1);
            self.s = tail;
            let pair = &head[0];
            Some((&pair.0, &pair.1))
        }
    }

    /// The last of the pairs still to come, if there is one.
    pub fn next_back(&mut self) -> (r: Option<(&'a K, &'a V)>)
        ensures
            old(self)@.len() == 0 ==> r is None && final(self)@ == old(self)@,
            old(self)@.len() > 0 ==> r == Some((&old(self)@.last().0, &old(self)@.last().1))
                && final(self)@ == old(self)@.drop_last(),
    {
        let s: &'a [(K, V)] = self.s;
        if s.len() == 0 {
            None
        } else {
            let (head, tail) = s.split_at(s.len() - 1);
            self.s = head;
            let pair = &tail[0];
            Some((&pair.0, &pair.1))
        }
    }

    /// The number of pairs still to come.
    pub fn len(&self) -> (r: usize)
        ensures
            r == self@.len(),
    {
        self.s.len()
    }

    /// The number of pairs still to come, as a lower and an upper bound.
    pub fn size_hint(&self) -> (r: (usize, Option<usize>))
        ensures
            r.0 == self@.len(),
            r.1 == Some(r.0),
    {
        (self.s.len(), Some(self.s.len()))
    }
}

impl<'a, K, V> Clone for Iter<'a, K, V> {
    /// A second iterator over the same pairs still to come.
    fn clone(&self) -> (r: Self)
        ensures
            r@ == self@,
    {
        Iter { s: self.s }
    }
}

impl<'a, K, V> View for Keys<'a, K, V> {
    type V = Seq<K>;

    /// The keys still to come, the next one first.
    closed spec fn view(&self) -> Seq<K> {
        keys_of(self.inner@)
    }
}

impl<'a, K, V> Keys<'a, K, V> {
    pub(crate) fn over(inner: Iter<'a, K, V>) -> (r: Self)
        ensures
            r@ == keys_of(inner@),
    {
        Keys { inner }
    }

    /// The first of the keys still to come, if there is one.
    pub fn next(&mut self) -> (r: Option<&'a K>)
        ensures
            old(self)@.len() == 0 ==> r is None && final(self)@ == old(self)@,
            old(self)@.len() > 0 ==> r == Some(&old(self)@.first()) && final(self)@ == old(
                self,
            )@.drop_first(),
    {
        let ghost before = self.inner@;
        match self.inner.next() {
            Some((k, _)) => {
                assert(keys_of(before.drop_first()) =~= keys_of(before).drop_first());
                Some(k)
            },
            None => None,
        }
    }

    /// The last of the keys still to come, if there is one.
    pub fn next_back(&mut self) -> (r: Option<&'a K>)
        ensures
            old(self)@.len() == 0 ==> r is None && final(self)@ == old(self)@,
            old(self)@.len() > 0 ==> r == Some(&old(self)@.last()) && final(self)@ == old(
                self,
            )@.drop_last(),
    {
        let ghost before = self.inner@;
        match self.inner.next_back() {
            Some((k, _)) => {
                assert(keys_of(before.drop_last()) =~= keys_of(before).drop_last());
                Some(k)
            },
            None => None,
        }
    }

    /// The number of keys still to come, as a lower and an upper bound.
    pub fn size_hint(&self) -> (r: (usize, Option<usize>))
        ensures
            r.0 == self@.len(),
            r.1 == Some(r.0),
    {
        self.inner.size_hint()
    }
}

impl<'a, K, V> Clone for Keys<'a, K, V> {
    /// A second iterator over the same keys still to come.
    fn clone(&self) -> (r: Self)
        ensures
            r@ == self@,
    {
        Keys { inner: self.inner.clone() }
    }
}

impl<'a, K, V> View for Values<'a, K, V> {
    type V = Seq<V>;

    /// The values still to come, the next one first.
    closed spec fn view(&self) -> Seq<V> {
        values_of(self.inner@)
    }
}

impl<'a, K, V> Values<'a, K, V> {
    pub(crate) fn over(inner: Iter<'a, K, V>) -> (r: Self)
        ensures
            r@ == values_of(inner@),
    {
        Values { inner }
    }

    /// The first of the values still to come, if there is one.
    pub fn next(&mut self) -> (r: Option<&'a V>)
        ensures
            old(self)@.len() == 0 ==> r is None && final(self)@ == old(self)@,
            old(self)@.len() > 0 ==> r == Some(&old(self)@.first()) && final(self)@ == old(
                self,
            )@.drop_first(),
    {
        let ghost before = self.inner@;
        match self.inner.next() {
            Some((_, v)) => {
                assert(values_of(before.drop_first()) =~= values_of(before).drop_first());
                Some(v)
            },
            None => None,
        }
    }

    /// The last of the values still to come, if there is one.
    pub fn next_back(&mut self) -> (r: Option<&'a V>)
        ensures
            old(self)@.len() == 0 ==> r is None && final(self)@ == old(self)@,
            old(self)@.len() > 0 ==> r == Some(&old(self)@.last()) && final(self)@ == old(
                self,
            )@.drop_last(),
    {
        let ghost before = self.inner@;
        match self.inner.next_back() {
            Some((_, v)) => {
                assert(values_of(before.drop_last()) =~= values_of(before).drop_last());
                Some(v)
            },
            None => None,
        }
    }

    /// The number of values still to come, as a lower and an upper bound.
    pub fn size_hint(&self) -> (r: (usize, Option<usize>))
        ensures
            r.0 == self@.len(),
            r.1 == Some(r.0),
    {
        self.inner.size_hint()
    }
}

impl<'a, K, V> Clone for Values<'a, K, V> {
    /// A second iterator over the same values still to come.
    fn clone(&self) -> (r: Self)
        ensures
            r@ == self@,
    {
        Values { inner: self.inner.clone() }
    }
}

impl<K, V> View for IntoIter<K, V> {
    type V = Seq<(K, V)>;

    /// The pairs still to come, the next one first.
    closed spec fn view(&self) -> Seq<(K, V)> {
        self.inner@
    }
}

impl<K, V> IntoIter<K, V> {
    /// Takes over pairs that are given last one first.
    pub(crate) fn from_reversed(rest: Vec<(K, V)>) -> (r: Self)
        ensures
            r@.len() == rest@.len(),
            forall|j: int| 0 <= j < r@.len() ==> #[trigger] r@[j] == rest@[rest@.len() - 1 - j],
    {
        let ghost src = rest@;
        let mut rest = rest;
        let mut inner: VecDeque<(K, V)> = VecDeque::new();
        while rest.len() > 0
            invariant
                rest@.len() + inner@.len() == src.len(),
                forall|j: int| 0 <= j < rest@.len() ==> #[trigger] rest@[j] == src[j],
                forall|j: int|
                    0 <= j < inner@.len() ==> #[trigger] inner@[j] == src[src.len() - 1 - j],
            decreases rest@.len(),
        {
            match rest.pop() {
                Some(x) => inner.push_back(x),
                None => {},
            }
        }
        IntoIter { inner }
    }

    /// The first of the pairs still to come, if there is one.
    pub fn next(&mut self) -> (r: Option<(K, V)>)
        ensures
            old(self)@.len() == 0 ==> r is None && final(self)@ == old(self)@,
            old(self)@.len() > 0 ==> r == Some(old(self)@.first()) && final(self)@ == old(
                self,
            )@.drop_first(),
    {
        let r = self.inner.pop_front();
        proof {
            if old(self)@.len() > 0 {
                assert(self.inner@ =~= old(self)@.drop_first());
            }
        }
        r
    }

    /// The last of the pairs still to come, if there is one.
    pub fn next_back(&mut self) -> (r: Option<(K, V)>)
        ensures
            old(self)@.len() == 0 ==> r is None && final(self)@ == old(self)@,
            old(self)@.len() > 0 ==> r == Some(old(self)@.last()) && final(self)@ == old(
                self,
            )@.drop_last(),
    {
        let r = self.inner.pop_back();
        proof {
            if old(self)@.len() > 0 {
                assert(self.inner@ =~= old(self)@.drop_last());
            }
        }
        r
    }

    /// The number of pairs still to come, as a lower and an upper bound.
    pub fn size_hint(&self) -> (r: (usize, Option<usize>))
        ensures
            r.0 == self@.len(),
            r.1 == Some(r.0),
    {
        (self.inner.len(), Some(self.inner.len()))
    }
}

} // verus!
