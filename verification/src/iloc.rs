//! The positional accessor.

use crate::key::Key;
use crate::map::ExtendedHashMap;
use vstd::prelude::*;

verus! {

/// The positional accessor of a container: its values by the rank of
/// their keys, the smallest key having rank 0.
#[derive(Debug)]
pub struct Iloc<'a, K: Key, V> {
    pub(crate) map: &'a ExtendedHashMap<K, V>,
}

impl<'a, K: Key, V> Iloc<'a, K, V> {
    /// The container that is looked into.
    pub closed spec fn source(&self) -> ExtendedHashMap<K, V> {
        *self.map
    }

    /// The positional accessor of `map`.
    pub(crate) fn of(map: &'a ExtendedHashMap<K, V>) -> (r: Self)
        ensures
            r.source() == *map,
    {
        Iloc { map }
    }

    /// The value whose key has rank `index`. The rank must be one that
    /// the container has: from the number of entries on there is no key
    /// to return the value of, and `get` says so.
    pub fn index(&self, index: usize) -> (value: &'a V)
        requires
            index < self.source()@.len(),
        ensures
            index < self.source().pairs().len(),
            *value == self.source().pairs()[index as int].1,
    {
        self.map.at(index).unwrap()
    }

    /// The value whose key has rank `index`; `None` where the container
    /// has fewer keys.
    pub fn get(&self, index: usize) -> (r: Option<&'a V>)
        ensures
            match r {
                Some(value) => index < self.source().pairs().len() && *value
                    == self.source().pairs()[index as int].1,
                None => index >= self.source()@.len(),
            },
    {
        self.map.at(index)
    }
}

} // verus!
