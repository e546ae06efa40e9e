//! Iterators that let the values of a map be changed in place while its
//! keys stay as they are.

use vstd::prelude::*;

verus! {

/// Walks the pairs of a map, handing out each key to read and each value to
/// change.
pub struct IterMut<'a, K, V> {
    s: &'a mut [(K, V)],
}

impl<'a, K, V> View for IterMut<'a, K, V> {
    type V = Seq<(K, V)>;

    /// The pairs still to come, the next one first.
    open spec fn view(&self) -> Seq<(K, V)> {
        self.backing()@
    }
}

impl<'a, K, V> IterMut<'a, K, V> {
    /// The borrow of the pairs still to come. Its value when the borrow ends
    /// is what the map then holds in their place.
    pub closed spec fn backing(&self) -> &'a mut [(K, V)] {
        self.s
    }

    pub(crate) fn over(s: &'a mut [(K, V)]) -> (r: Self)
        ensures
            r@ == old(s)@,
            final(r.backing())@ == final(s)@,
    {
        IterMut { s }
    }

    /// The first of the pairs still to come, if there is one.
    pub fn next(&mut self) -> (r: Option<(&'a K, &'a mut V)>)
        ensures
            match r {
                Some((k, v)) => {
                    &&& old(self)@.len() > 0
                    &&& *k == old(self)@.first().0
                    &&& *v == old(self)@.first().1
                    &&& final(self)@ == old(self)@.drop_first()
                    &&& final(old(self).backing())@ == seq![(*k, *final(v))] + final(final(self).backing())@
                },
                None => {
                    &&& old(self)@.len() == 0
                    &&& final(self)@ == old(self)@
                    &&& final(old(self).backing())@ == final(final(self).backing())@
                },
            },
    {
        let mut taken: &'a mut [(K, V)] = &mut [];
        std::mem::swap(&mut self.s, &mut taken);
        if taken.len() == 0 {
            self.s = taken;
            None
        } else {
            let (head, tail) = taken.split_at_mut(1);
            self.s = tail;
            let pair = &mut head[0];
            Some((&pair.0, &mut pair.1))
        }
    }

    /// The last of the pairs still to come, if there is one.
    pub fn next_back(&mut self) -> (r: Option<(&'a K, &'a mut V)>)
        ensures
            match r {
                Some((k, v)) => {
                    &&& old(self)@.len() > 0
                    &&& *k == old(self)@.last().0
                    &&& *v == old(self)@.last().1
                    &&& final(self)@ == old(self)@.drop_last()
                    &&& final(old(self).backing())@ == final(final(self).backing())@ + seq![(*k, *final(v))]
                },
                None => {
                    &&& old(self)@.len() == 0
                    &&& final(self)@ == old(self)@
                    &&& final(old(self).backing())@ == final(final(self).backing())@
                },
            },
    {
        let mut taken: &'a mut [(K, V)] = &mut [];
        std::mem::swap(&mut self.s, &mut taken);
        let n = taken.len();
        if n == 0 {
            self.s = taken;
            None
        } else {
            let (head, tail) = taken.split_at_mut(n - 1);
            self.s = head;
            let pair = &mut tail[0];
            Some((&pair.0, &mut pair.1))
        }
    }

    /// The number of pairs still to come, as a lower and an upper bound.
    pub fn size_hint(&self) -> (r: (usize, Option<usize>))
        ensures
            r.0 == self@.len(),
            r.1 == Some(r.0),
    {
        (self.s.len(), Some(self.s.len()))
    }

    /// Ends the iteration: the pairs still to come stay as they are.
    pub fn finish(self)
        ensures
            final(self.backing())@ == self@,
    {
    }
}

/// Walks the values of a map, handing out each to be changed.
pub struct ValuesMut<'a, K, V> {
    inner: IterMut<'a, K, V>,
}

impl<'a, K, V> View for ValuesMut<'a, K, V> {
    type V = Seq<(K, V)>;

    /// The pairs whose values are still to come, the next one first.
    open spec fn view(&self) -> Seq<(K, V)> {
        self.backing()@
    }
}

impl<'a, K, V> ValuesMut<'a, K, V> {
    /// The borrow of the pairs still to come. Its value when the borrow ends
    /// is what the map then holds in their place.
    pub closed spec fn backing(&self) -> &'a mut [(K, V)] {
        self.inner.s
    }

    pub(crate) fn over(inner: IterMut<'a, K, V>) -> (r: Self)
        ensures
            r@ == inner@,
            r.backing() == inner.backing(),
    {
        ValuesMut { inner }
    }

    /// The first of the values still to come, if there is one.
    pub fn next(&mut self) -> (r: Option<&'a mut V>)
        ensures
            match r {
                Some(v) => {
                    &&& old(self)@.len() > 0
                    &&& *v == old(self)@.first().1
                    &&& final(self)@ == old(self)@.drop_first()
                    &&& final(old(self).backing())@ == seq![
                        (old(self)@.first().0, *final(v)),
                    ] + final(final(self).backing())@
                },
                None => {
                    &&& old(self)@.len() == 0
                    &&& final(self)@ == old(self)@
                    &&& final(old(self).backing())@ == final(final(self).backing())@
                },
            },
    {
        match self.inner.next() {
            Some((_, v)) => Some(v),
            None => None,
        }
    }

    /// The last of the values still to come, if there is one.
    pub fn next_back(&mut self) -> (r: Option<&'a mut V>)
        ensures
            match r {
                Some(v) => {
                    &&& old(self)@.len() > 0
                    &&& *v == old(self)@.last().1
                    &&& final(self)@ == old(self)@.drop_last()
                    &&& final(old(self).backing())@ == final(final(self).backing())@ + seq![
                        (old(self)@.last().0, *final(v)),
                    ]
                },
                None => {
                    &&& old(self)@.len() == 0
                    &&& final(self)@ == old(self)@
                    &&& final(old(self).backing())@ == final(final(self).backing())@
                },
            },
    {
        match self.inner.next_back() {
            Some((_, v)) => Some(v),
            None => None,
        }
    }

    /// The number of values still to come, as a lower and an upper bound.
    pub fn size_hint(&self) -> (r: (usize, Option<usize>))
        ensures
            r.0 == self@.len(),
            r.1 == Some(r.0),
    {
        self.inner.size_hint()
    }

    /// Ends the iteration: the pairs still to come stay as they are.
    pub fn finish(self)
        ensures
            final(self.backing())@ == self@,
    {
    }

    /// The number of values still to come.
    pub fn len(&self) -> (r: usize)
        ensures
            r == self@.len(),
    {
        self.inner.s.len()
    }
}

} // verus!
