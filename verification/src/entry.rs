//! Entries: a key's place in the map, held for one mutation.

use vstd::prelude::*;
use either::Either;
use crate::locate::NodeMut;
use crate::node::Node;
use crate::site::{frame_of, lemma_site_wf, site_insert, site_into_value_mut, site_node, site_put, site_remove, site_slot, site_value, site_value_mut, site_wf, Frame};

verus! {

/// The entry of a key in a map: vacant when the key is absent, occupied
/// when it is present.
#[verifier::reject_recursive_types(V)]
pub enum Entry<'a, V> {
    Vacant(VacantEntry<'a, V>),
    Occupied(OccupiedEntry<'a, V>),
}

/// The entry of a key that is absent: the key, and the place where it has
/// to go in. The place is the map's root slot while the map is empty, and
/// otherwise the node at which the search for the key ended.
#[verifier::reject_recursive_types(V)]
pub struct VacantEntry<'a, V> {
    pub(crate) key: Vec<u8>,
    pub(crate) node: Either<&'a mut Option<Node<V>>, NodeMut<'a, V>>,
    pub(crate) outside: Ghost<Map<Seq<u8>, V>>,
}

/// The entry of a key that is present: the key, and the place where it is
/// held. The place is the map's root slot when the root is the key's leaf,
/// and otherwise the internal node that holds that leaf.
#[verifier::reject_recursive_types(V)]
pub struct OccupiedEntry<'a, V> {
    pub(crate) key: Vec<u8>,
    pub(crate) node: Either<&'a mut Option<Node<V>>, NodeMut<'a, V>>,
    pub(crate) outside: Ghost<Map<Seq<u8>, V>>,
}

impl<'a, V> Entry<'a, V> {
    /// The entry of the absent key `key`, whose place is `node`.
    pub(crate) fn new_vacant(key: Vec<u8>, node: Either<&'a mut Option<Node<V>>, NodeMut<'a, V>>, outside: Ghost<Map<Seq<u8>, V>>) -> (entry: Self)
        requires
            site_wf(node, key@, false),
        ensures
            entry is Vacant,
            entry.wf(),
            entry.key_spec() == key@,
            entry.frame() == frame_of(node, key@, outside@),
            entry.slot() == site_slot(node),
            entry.node() == site_node(node),
    {
        Entry::Vacant(VacantEntry { key, node, outside })
    }

    /// The entry of the present key `key`, whose place is `node`.
    pub(crate) fn new_occupied(key: Vec<u8>, node: Either<&'a mut Option<Node<V>>, NodeMut<'a, V>>, outside: Ghost<Map<Seq<u8>, V>>) -> (entry: Self)
        requires
            site_wf(node, key@, true),
        ensures
            entry is Occupied,
            entry.wf(),
            entry.key_spec() == key@,
            entry.frame() == frame_of(node, key@, outside@),
            entry.slot() == site_slot(node),
            entry.node() == site_node(node),
    {
        Entry::Occupied(OccupiedEntry { key, node, outside })
    }
}

impl<'a, V> VacantEntry<'a, V> {
    /// The entry's key.
    pub closed spec fn key_spec(self) -> Seq<u8> {
        self.key@
    }

    /// The entry's place is in order, and the key is absent there.
    pub closed spec fn wf(self) -> bool {
        site_wf(self.node, self.key@, false)
    }

    /// What stays fixed about the entry's place.
    pub closed spec fn frame(self) -> Frame<V> {
        frame_of(self.node, self.key@, self.outside@)
    }

    /// The root slot that the entry refers to, when its place is the root.
    pub closed spec fn slot(self) -> &'a mut Option<Node<V>> {
        site_slot(self.node)
    }

    /// The node that the entry refers to, when its place is a node.
    pub closed spec fn node(self) -> &'a mut Node<V> {
        site_node(self.node)
    }

    /// What the map holds as the entry stands.
    pub open spec fn map(self) -> Map<Seq<u8>, V> {
        self.frame().map_given(*self.slot(), *self.node())
    }

    /// The frame is that of the entry's key, and the key is absent from
    /// the map.
    pub proof fn lemma_vacant(self)
        requires
            self.wf(),
        ensures
            self.frame().key == self.key_spec(),
            !self.map().contains_key(self.key_spec()),
            self.frame().wf_given(*self.slot(), *self.node()),
    {
        lemma_site_wf(self.node, self.key@, false, self.outside@);
    }

    /// An entry that is let go leaves the map as the entry stands.
    pub proof fn lemma_dropped(self)
        requires
            has_resolved(self),
        ensures
            self.frame().wf_given(*final(self.slot()), *final(self.node())) == self.frame().wf_given(*self.slot(), *self.node()),
            self.frame().map_given(*final(self.slot()), *final(self.node())) == self.map(),
    {
        match self.node {
            Either::Left(slot) => {
                assert(has_resolved(slot));
            },
            Either::Right(node) => {
                assert(has_resolved(node));
            },
        }
        assert(self.frame().map_given(*final(self.slot()), *final(self.node())) =~= self.map());
    }

    /// The entry's key.
    pub fn key(&self) -> (key: &Vec<u8>)
        ensures
            key@ == self.key_spec(),
    {
        &self.key
    }

    /// Gives the key back and leaves the map as it is.
    pub fn into_key(self) -> (key: Vec<u8>)
        requires
            self.wf(),
        ensures
            key@ == self.key_spec(),
            self.frame().wf_given(*final(self.slot()), *final(self.node())),
            self.frame().map_given(*final(self.slot()), *final(self.node())) == self.map(),
    {
        proof {
            self.lemma_vacant();
        }
        self.key
    }

    /// Puts the key into the map with `value` and hands out exclusive
    /// access to the value in the map.
    pub fn insert(self, value: V) -> (stored: &'a mut V)
        requires
            self.wf(),
        ensures
            *stored == value,
            self.frame().wf_given(*final(self.slot()), *final(self.node())),
            self.frame().map_given(*final(self.slot()), *final(self.node())) == self.map().insert(self.key_spec(), *final(stored)),
    {
        site_insert(self.node, self.key, value, self.outside)
    }

    /// Puts the key into the map with `value`.
    pub fn put(self, value: V)
        requires
            self.wf(),
        ensures
            self.frame().wf_given(*final(self.slot()), *final(self.node())),
            self.frame().map_given(*final(self.slot()), *final(self.node())) == self.map().insert(self.key_spec(), value),
    {
        site_put(self.node, self.key, value, self.outside)
    }
}

impl<'a, V> OccupiedEntry<'a, V> {
    /// The entry's key.
    pub closed spec fn key_spec(self) -> Seq<u8> {
        self.key@
    }

    /// The entry's place is in order, and the key is held there.
    pub closed spec fn wf(self) -> bool {
        site_wf(self.node, self.key@, true)
    }

    /// What stays fixed about the entry's place.
    pub closed spec fn frame(self) -> Frame<V> {
        frame_of(self.node, self.key@, self.outside@)
    }

    /// The root slot that the entry refers to, when its place is the root.
    pub closed spec fn slot(self) -> &'a mut Option<Node<V>> {
        site_slot(self.node)
    }

    /// The node that the entry refers to, when its place is a node.
    pub closed spec fn node(self) -> &'a mut Node<V> {
        site_node(self.node)
    }

    /// What the map holds as the entry stands.
    pub open spec fn map(self) -> Map<Seq<u8>, V> {
        self.frame().map_given(*self.slot(), *self.node())
    }

    /// The frame is that of the entry's key, and the key is present in the
    /// map.
    pub proof fn lemma_occupied(self)
        requires
            self.wf(),
        ensures
            self.frame().key == self.key_spec(),
            self.map().contains_key(self.key_spec()),
            self.frame().wf_given(*self.slot(), *self.node()),
    {
        lemma_site_wf(self.node, self.key@, true, self.outside@);
    }

    /// An entry that is let go leaves the map as the entry stands.
    pub proof fn lemma_dropped(self)
        requires
            has_resolved(self),
        ensures
            self.frame().wf_given(*final(self.slot()), *final(self.node())) == self.frame().wf_given(*self.slot(), *self.node()),
            self.frame().map_given(*final(self.slot()), *final(self.node())) == self.map(),
    {
        match self.node {
            Either::Left(slot) => {
                assert(has_resolved(slot));
            },
            Either::Right(node) => {
                assert(has_resolved(node));
            },
        }
        assert(self.frame().map_given(*final(self.slot()), *final(self.node())) =~= self.map());
    }

    /// The entry's key.
    pub fn key(&self) -> (key: &Vec<u8>)
        ensures
            key@ == self.key_spec(),
    {
        &self.key
    }

    /// The value stored under the key.
    pub fn get(&self) -> (value: &V)
        requires
            self.wf(),
        ensures
            self.map().contains_key(self.key_spec()),
            *value == self.map()[self.key_spec()],
    {
        site_value(&self.node, self.key.as_slice(), self.outside)
    }

    /// Exclusive access to the value stored under the key, for as long as
    /// the entry is borrowed. The entry stays at its place.
    pub fn get_mut(&mut self) -> (value: &mut V)
        requires
            old(self).wf(),
        ensures
            *value == old(self).map()[old(self).key_spec()],
            final(self).wf(),
            final(self).key_spec() == old(self).key_spec(),
            final(self).frame() == old(self).frame(),
            *final(final(self).slot()) == *final(old(self).slot()),
            *final(final(self).node()) == *final(old(self).node()),
            final(self).map() == old(self).map().insert(old(self).key_spec(), *final(value)),
    {
        site_value_mut(&mut self.node, self.key.as_slice(), self.outside)
    }

    /// Exclusive access to the value stored under the key, for as long as
    /// the map is borrowed.
    pub fn into_mut(self) -> (value: &'a mut V)
        requires
            self.wf(),
        ensures
            *value == self.map()[self.key_spec()],
            self.frame().wf_given(*final(self.slot()), *final(self.node())),
            self.frame().map_given(*final(self.slot()), *final(self.node())) == self.map().insert(self.key_spec(), *final(value)),
    {
        site_into_value_mut(self.node, self.key.as_slice(), self.outside)
    }

    /// Stores `value` under the key and hands back the value it replaces.
    pub fn insert(&mut self, value: V) -> (previous: V)
        requires
            old(self).wf(),
        ensures
            previous == old(self).map()[old(self).key_spec()],
            final(self).wf(),
            final(self).key_spec() == old(self).key_spec(),
            final(self).frame() == old(self).frame(),
            *final(final(self).slot()) == *final(old(self).slot()),
            *final(final(self).node()) == *final(old(self).node()),
            final(self).map() == old(self).map().insert(old(self).key_spec(), value),
    {
        let mut value = value;
        core::mem::swap(self.get_mut(), &mut value);
        value
    }

    /// Takes the key out of the map and hands back the key and its value.
    pub fn remove_kv(self) -> (kv: (Vec<u8>, V))
        requires
            self.wf(),
        ensures
            kv.0@ == self.key_spec(),
            kv.1 == self.map()[self.key_spec()],
            self.frame().wf_given(*final(self.slot()), *final(self.node())),
            self.frame().map_given(*final(self.slot()), *final(self.node())) == self.map().remove(self.key_spec()),
    {
        site_remove(self.node, self.key.as_slice(), self.outside)
    }
}

impl<'a, V> Entry<'a, V> {
    /// The entry's key.
    pub open spec fn key_spec(self) -> Seq<u8> {
        match self {
            Entry::Vacant(entry) => entry.key_spec(),
            Entry::Occupied(entry) => entry.key_spec(),
        }
    }

    /// The entry's place is in order for its key.
    pub open spec fn wf(self) -> bool {
        match self {
            Entry::Vacant(entry) => entry.wf(),
            Entry::Occupied(entry) => entry.wf(),
        }
    }

    /// What stays fixed about the entry's place.
    pub open spec fn frame(self) -> Frame<V> {
        match self {
            Entry::Vacant(entry) => entry.frame(),
            Entry::Occupied(entry) => entry.frame(),
        }
    }

    /// The root slot that the entry refers to, when its place is the root.
    pub open spec fn slot(self) -> &'a mut Option<Node<V>> {
        match self {
            Entry::Vacant(entry) => entry.slot(),
            Entry::Occupied(entry) => entry.slot(),
        }
    }

    /// The node that the entry refers to, when its place is a node.
    pub open spec fn node(self) -> &'a mut Node<V> {
        match self {
            Entry::Vacant(entry) => entry.node(),
            Entry::Occupied(entry) => entry.node(),
        }
    }

    /// What the map holds as the entry stands.
    pub open spec fn map(self) -> Map<Seq<u8>, V> {
        self.frame().map_given(*self.slot(), *self.node())
    }

    /// The entry's key.
    pub fn key(&self) -> (key: &Vec<u8>)
        ensures
            key@ == self.key_spec(),
    {
        match self {
            Entry::Occupied(entry) => entry.key(),
            Entry::Vacant(entry) => entry.key(),
        }
    }

    /// The value of the key in the map: the one that is there, or `value`,
    /// which is put in when the key is absent.
    pub fn or_insert(self, value: V) -> (stored: &'a mut V)
        requires
            self.wf(),
        ensures
            *stored == (if self is Occupied {
                self.map()[self.key_spec()]
            } else {
                value
            }),
            self.frame().wf_given(*final(self.slot()), *final(self.node())),
            self.frame().map_given(*final(self.slot()), *final(self.node())) == self.map().insert(self.key_spec(), *final(stored)),
    {
        match self {
            Entry::Occupied(entry) => entry.into_mut(),
            Entry::Vacant(entry) => entry.insert(value),
        }
    }

    /// The value of the key in the map: the one that is there, or the one
    /// that `f` makes, which is put in when the key is absent.
    pub fn or_insert_with<F: FnOnce() -> V>(self, f: F) -> (stored: &'a mut V)
        requires
            self.wf(),
            f.requires(()),
        ensures
            self is Occupied ==> *stored == self.map()[self.key_spec()],
            self is Vacant ==> f.ensures((), *stored),
            self.frame().wf_given(*final(self.slot()), *final(self.node())),
            self.frame().map_given(*final(self.slot()), *final(self.node())) == self.map().insert(self.key_spec(), *final(stored)),
    {
        match self {
            Entry::Occupied(entry) => entry.into_mut(),
            Entry::Vacant(entry) => entry.insert(f()),
        }
    }

    /// The value of the key in the map: the one that is there, or the one
    /// that `f` makes from the key, which is put in when the key is absent.
    pub fn or_insert_with_key<F: FnOnce(&Vec<u8>) -> V>(self, f: F) -> (stored: &'a mut V)
        requires
            self.wf(),
            forall|key: &Vec<u8>| key@ == self.key_spec() ==> f.requires((key,)),
        ensures
            self is Occupied ==> *stored == self.map()[self.key_spec()],
            self is Vacant ==> exists|key: &Vec<u8>| key@ == self.key_spec() && f.ensures((key,), *stored),
            self.frame().wf_given(*final(self.slot()), *final(self.node())),
            self.frame().map_given(*final(self.slot()), *final(self.node())) == self.map().insert(self.key_spec(), *final(stored)),
    {
        match self {
            Entry::Occupied(entry) => entry.into_mut(),
            Entry::Vacant(entry) => {
                let new_value = f(entry.key());
                entry.insert(new_value)
            },
        }
    }

    /// The value of the key in the map: the one that is there, or the
    /// default value, which is put in when the key is absent.
    pub fn or_default(self) -> (stored: &'a mut V) where V: Default
        requires
            self.wf(),
        ensures
            self is Occupied ==> *stored == self.map()[self.key_spec()],
            self.frame().wf_given(*final(self.slot()), *final(self.node())),
            self.frame().map_given(*final(self.slot()), *final(self.node())) == self.map().insert(self.key_spec(), *final(stored)),
    {
        match self {
            Entry::Occupied(entry) => entry.into_mut(),
            Entry::Vacant(entry) => entry.insert(V::default()),
        }
    }

    /// Lets `f` change the value of the key where the key is present, and
    /// hands the entry back.
    pub fn and_modify<F: FnOnce(&mut V)>(self, f: F) -> (entry: Self)
        requires
            self.wf(),
            forall|value: &mut V| f.requires((value,)),
        ensures
            entry.wf(),
            entry.key_spec() == self.key_spec(),
            entry.frame() == self.frame(),
            entry is Occupied <==> self is Occupied,
            *final(entry.slot()) == *final(self.slot()),
            *final(entry.node()) == *final(self.node()),
            self is Vacant ==> entry.map() == self.map(),
            self is Occupied ==> exists|value: &mut V| *value == self.map()[self.key_spec()] && f.ensures((value,), ())
                && entry.map() == self.map().insert(self.key_spec(), *final(value)),
    {
        match self {
            Entry::Occupied(mut entry) => {
                proof {
                    entry.lemma_occupied();
                }
                let value = entry.get_mut();
                let ghost witness = value;
                f(value);
                proof {
                    assert(*witness == self.map()[self.key_spec()]);
                    assert(entry.map() == self.map().insert(self.key_spec(), *final(witness)));
                    assert(exists|value: &mut V| *value == *witness && #[trigger] f.ensures((value,), ()) && *final(value) == *final(witness));
                }
                Entry::Occupied(entry)
            },
            Entry::Vacant(e) => Entry::Vacant(e),
        }
    }
}

} // verus!
