//! Leaf nodes: one key with its value.

use vstd::prelude::*;
use crate::util::suffix;

verus! {

/// A leaf holds the whole key, not only the part below its position in the
/// tree, together with the value stored under it.
pub struct LeafNode<V> {
    pub(crate) key: Vec<u8>,
    pub(crate) value: V,
}

impl<V> LeafNode<V> {
    /// The key stored in this leaf.
    pub closed spec fn key_spec(self) -> Seq<u8> {
        self.key@
    }

    /// The value stored in this leaf.
    pub closed spec fn value_spec(self) -> V {
        self.value
    }

    /// A leaf that holds `value` under `key`.
    pub fn new(key: Vec<u8>, value: V) -> (leaf: Box<Self>)
        ensures
            leaf.key_spec() == key@,
            leaf.value_spec() == value,
    {
        Box::new(LeafNode { key, value })
    }

    /// Stores `value` and hands back the value it replaces.
    pub fn set_value(&mut self, value: V) -> (previous: V)
        ensures
            previous == old(self).value_spec(),
            final(self).value_spec() == value,
            final(self).key_spec() == old(self).key_spec(),
    {
        let mut value = value;
        core::mem::swap(&mut self.value, &mut value);
        value
    }

    /// The key stored in the leaf.
    pub fn key_ref(&self) -> (key: &Vec<u8>)
        ensures
            key@ == self.key_spec(),
    {
        &self.key
    }

    /// The value stored in the leaf.
    pub fn value_ref(&self) -> (value: &V)
        ensures
            *value == self.value_spec(),
    {
        &self.value
    }

    /// Exclusive access to the value stored in the leaf.
    pub fn value_mut(&mut self) -> (value: &mut V)
        ensures
            *value == old(self).value_spec(),
            final(self).value_spec() == *final(value),
            final(self).key_spec() == old(self).key_spec(),
    {
        &mut self.value
    }

    /// The part of the key below `depth`: `key[depth..]`, empty once `depth`
    /// reaches the end of the key.
    pub fn partial_key(&self, depth: usize) -> (rest: &[u8])
        ensures
            rest@ == suffix(self.key_spec(), depth as int),
    {
        let len = self.key.len();
        if depth >= len {
            let rest = vstd::slice::slice_subrange(self.key.as_slice(), len, len);
            assert(rest@ =~= suffix(self.key@, depth as int));
            rest
        } else {
            let rest = vstd::slice::slice_subrange(self.key.as_slice(), depth, len);
            assert(rest@ =~= suffix(self.key@, depth as int));
            rest
        }
    }

    /// Takes the leaf apart into its key and value.
    pub fn into_kv(self) -> (kv: (Vec<u8>, V))
        ensures
            kv.0@ == self.key_spec(),
            kv.1 == self.value_spec(),
    {
        (self.key, self.value)
    }
}

} // verus!
