//! The map under its long name, with keys taken by reference.

use vstd::prelude::*;
use crate::map::ARTMap;
use crate::util::to_vec;

verus! {

/// An ordered map from byte strings to values, stored as an adaptive radix
/// tree. Keys are handed in as slices and copied when they are stored.
pub struct AdaptiveRadixTreeMap<V> {
    map: ARTMap<V>,
}

impl<V> View for AdaptiveRadixTreeMap<V> {
    type V = Map<Seq<u8>, V>;

    /// The keys of the map with their values.
    closed spec fn view(&self) -> Map<Seq<u8>, V> {
        self.map@
    }
}

impl<V> AdaptiveRadixTreeMap<V> {
    /// The structural invariant of the tree.
    pub closed spec fn wf(self) -> bool {
        self.map.wf()
    }

    /// An empty map.
    pub fn new() -> (map: Self)
        ensures
            map.wf(),
            map@ == Map::<Seq<u8>, V>::empty(),
    {
        AdaptiveRadixTreeMap { map: ARTMap::new() }
    }

    /// The value stored under `key`, if the key is present.
    pub fn get(&self, key: &[u8]) -> (value: Option<&V>)
        requires
            self.wf(),
        ensures
            match value {
                Some(v) => self@.contains_key(key@) && *v == self@[key@],
                None => !self@.contains_key(key@),
            },
    {
        self.map.get(key)
    }

    /// Exclusive access to the value stored under `key`, if the key is
    /// present.
    pub fn get_mut(&mut self, key: &[u8]) -> (value: Option<&mut V>)
        requires
            old(self).wf(),
        ensures
            final(self).wf(),
            match value {
                Some(v) => old(self)@.contains_key(key@) && *v == old(self)@[key@]
                    && final(self)@ == old(self)@.insert(key@, *final(v)),
                None => !old(self)@.contains_key(key@) && final(self)@ == old(self)@,
            },
    {
        self.map.get_mut(key)
    }

    /// Stores `value` under a copy of `key` and hands back the value that
    /// was stored there before, if the key was present.
    pub fn insert(&mut self, key: &[u8], value: V) -> (previous: Option<V>)
        requires
            old(self).wf(),
        ensures
            final(self).wf(),
            final(self)@ == old(self)@.insert(key@, value),
            previous == (if old(self)@.contains_key(key@) {
                Some(old(self)@[key@])
            } else {
                None
            }),
    {
        self.map.insert(to_vec(key), value)
    }

    /// Takes `key` out of the map and hands back its value, if the key was
    /// present.
    pub fn remove(&mut self, key: &[u8]) -> (removed: Option<V>)
        requires
            old(self).wf(),
        ensures
            final(self).wf(),
            final(self)@ == old(self)@.remove(key@),
            removed == (if old(self)@.contains_key(key@) {
                Some(old(self)@[key@])
            } else {
                None
            }),
    {
        self.map.remove(key)
    }
}

} // verus!
