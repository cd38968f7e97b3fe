//! Walks over a container in ascending order of its keys.

use crate::key::Key;
use crate::map::pairs_of;
use vstd::prelude::*;

verus! {

/// The entries of a container from the smallest key on, one at a time.
#[derive(Debug, Clone)]
pub struct Iter<'a, K: Key, V> {
    pub(crate) base: &'a Vec<(K, V)>,
    pub(crate) at: usize,
}

impl<'a, K: Key, V> Iter<'a, K, V> {
    /// The entries that are still to come, in order.
    pub closed spec fn remaining(&self) -> Seq<(K::Model, V)> {
        if self.at <= self.base@.len() {
            pairs_of(self.base@).skip(self.at as int)
        } else {
            Seq::empty()
        }
    }

    /// The entries of `base` from the first on.
    pub(crate) fn over(base: &'a Vec<(K, V)>) -> (r: Self)
        ensures
            r.remaining() == pairs_of(base@),
    {
        assert(pairs_of(base@).skip(0) =~= pairs_of(base@));
        Iter { base, at: 0 }
    }

    /// The next entry, or `None` after the last one.
    pub fn next(&mut self) -> (r: Option<(&'a K, &'a V)>)
        ensures
            match r {
                Some((key, value)) => {
                    &&& old(self).remaining().len() > 0
                    &&& (key.model(), *value) == old(self).remaining()[0]
                    &&& final(self).remaining() == old(self).remaining().skip(1)
                },
                None => old(self).remaining().len() == 0 && final(self).remaining() == old(
                    self,
                ).remaining(),
            },
    {
        let base: &'a Vec<(K, V)> = self.base;
        if self.at < base.len() {
            let entry = &base[self.at];
            proof {
                assert(pairs_of(base@).skip(self.at as int).skip(1) =~= pairs_of(base@).skip(
                    self.at + 1,
                ));
            }
            self.at = self.at + 1;
            Some((&entry.0, &entry.1))
        } else {
            None
        }
    }

    /// The number of entries that are still to come, as both bounds.
    pub fn size_hint(&self) -> (r: (usize, Option<usize>))
        ensures
            r.0 == self.remaining().len(),
            r.1 == Some(r.0),
    {
        let left = if self.at <= self.base.len() {
            self.base.len() - self.at
        } else {
            0
        };
        (left, Some(left))
    }
}

/// The keys of a container in ascending order, one at a time.
#[derive(Debug, Clone)]
pub struct Keys<'a, K: Key, V> {
    pub(crate) inner: Iter<'a, K, V>,
}

impl<'a, K: Key, V> Keys<'a, K, V> {
    /// The entries whose keys are still to come, in order.
    pub closed spec fn remaining(&self) -> Seq<(K::Model, V)> {
        self.inner.remaining()
    }

    /// The keys of the entries of `inner`.
    pub(crate) fn over(inner: Iter<'a, K, V>) -> (r: Self)
        ensures
            r.remaining() == inner.remaining(),
    {
        Keys { inner }
    }

    /// The next key, or `None` after the last one.
    pub fn next(&mut self) -> (r: Option<&'a K>)
        ensures
            match r {
                Some(key) => {
                    &&& old(self).remaining().len() > 0
                    &&& key.model() == old(self).remaining()[0].0
                    &&& final(self).remaining() == old(self).remaining().skip(1)
                },
                None => old(self).remaining().len() == 0 && final(self).remaining() == old(
                    self,
                ).remaining(),
            },
    {
        match self.inner.next() {
            Some((key, _)) => Some(key),
            None => None,
        }
    }

    /// The number of keys that are still to come, as both bounds.
    pub fn size_hint(&self) -> (r: (usize, Option<usize>))
        ensures
            r.0 == self.remaining().len(),
            r.1 == Some(r.0),
    {
        self.inner.size_hint()
    }
}

/// The values of a container in ascending order of their keys, one at a
/// time.
#[derive(Debug, Clone)]
pub struct Values<'a, K: Key, V> {
    pub(crate) inner: Iter<'a, K, V>,
}

impl<'a, K: Key, V> Values<'a, K, V> {
    /// The entries whose values are still to come, in order.
    pub closed spec fn remaining(&self) -> Seq<(K::Model, V)> {
        self.inner.remaining()
    }

    /// The values of the entries of `inner`.
    pub(crate) fn over(inner: Iter<'a, K, V>) -> (r: Self)
        ensures
            r.remaining() == inner.remaining(),
    {
        Values { inner }
    }

    /// The next value, or `None` after the last one.
    pub fn next(&mut self) -> (r: Option<&'a V>)
        ensures
            match r {
                Some(value) => {
                    &&& old(self).remaining().len() > 0
                    &&& *value == old(self).remaining()[0].1
                    &&& final(self).remaining() == old(self).remaining().skip(1)
                },
                None => old(self).remaining().len() == 0 && final(self).remaining() == old(
                    self,
                ).remaining(),
            },
    {
        match self.inner.next() {
            Some((_, value)) => Some(value),
            None => None,
        }
    }

    /// The number of values that are still to come, as both bounds.
    pub fn size_hint(&self) -> (r: (usize, Option<usize>))
        ensures
            r.0 == self.remaining().len(),
            r.1 == Some(r.0),
    {
        self.inner.size_hint()
    }
}

} // verus!
