//! The map: an adaptive radix tree and its root.

use vstd::prelude::*;
use crate::entry::Entry;
use crate::locate::NodeMut;
use crate::navigate::{key_views, listed, saturated};
use crate::node::leaf::LeafNode;
use crate::node::{Node, NodeRef};
use crate::order::{lex_lt, strictly_sorted};
use crate::search::SearchResult;
use crate::shape::{lemma_content_decides_shape, lemma_has_key, lemma_same_tree_node_count};
use crate::site::{lemma_site_wf, locate_root, root_lookup, root_view, root_wf, site_into_value_mut, site_remove};

verus! {

/// An ordered map from byte strings to values.
pub struct ARTMap<V> {
    root: Option<Node<V>>,
}

impl<V> View for ARTMap<V> {
    type V = Map<Seq<u8>, V>;

    /// The keys of the map with their values.
    closed spec fn view(&self) -> Map<Seq<u8>, V> {
        root_view(self.root)
    }
}

impl<V> ARTMap<V> {
    /// The structural invariant of the tree: every leaf is reached along
    /// the bytes of its key, every internal node holds at least two leaves
    /// or subtrees, stores its children in the smallest layout that has room
    /// for them, and keeps in its leaf slot the key that ends at it.
    pub closed spec fn wf(self) -> bool {
        root_wf(self.root)
    }

    /// The root of the tree.
    pub closed spec fn root(self) -> Option<Node<V>> {
        self.root
    }

    /// What the invariant and the view are: the invariant of the tree
    /// below the root, and the keys and values found from the root.
    pub proof fn lemma_wf(self)
        ensures
            self.wf() == root_wf(self.root()),
            self@ == root_view(self.root()),
    {
    }

    /// An empty map.
    pub fn new() -> (map: Self)
        ensures
            map.wf(),
            map@ == Map::<Seq<u8>, V>::empty(),
            map.root().is_none(),
    {
        let map = ARTMap { root: None };
        assert(map@ =~= Map::<Seq<u8>, V>::empty());
        map
    }

    /// The value stored under `key`, if the key is present.
    pub fn get(&self, key: &[u8]) -> (value: Option<&V>)
        requires
            self.wf(),
        ensures
            match value {
                Some(v) => self@.contains_key(key@) && *v == self@[key@],
                None => !self@.contains_key(key@),
            },
    {
        match self.root_node_ref() {
            None => None,
            Some(root) => {
                proof {
                    assert(key@.take(0) =~= Seq::<u8>::empty());
                }
                match root.search_tree(key) {
                    SearchResult::Found(leaf) => Some(leaf.value_ref()),
                    _ => None,
                }
            },
        }
    }

    /// Exclusive access to the value stored under `key`, if the key is
    /// present. The map holds afterwards whatever is written through the
    /// reference.
    pub fn get_mut(&mut self, key: &[u8]) -> (value: Option<&mut V>)
        requires
            old(self).wf(),
        ensures
            final(self).wf(),
            match value {
                Some(v) => old(self)@.contains_key(key@) && *v == old(self)@[key@]
                    && final(self)@ == old(self)@.insert(key@, *final(v)),
                None => !old(self)@.contains_key(key@) && final(self)@ == old(self)@,
            },
    {
        let ghost before = self@;
        let (site, present) = locate_root(&mut self.root, key);
        if present {
            Some(site_into_value_mut(site, key, Ghost(before)))
        } else {
            proof {
                lemma_site_wf(site, key@, false, before);
            }
            None
        }
    }

    /// The entry of `key`: the place in the tree where the key is held, or
    /// where it has to go in.
    ///
    /// While the entry lives the map cannot be used. What the map holds
    /// afterwards is what the entry's frame tells of the place as the entry
    /// leaves it.
    pub fn entry(&mut self, key: Vec<u8>) -> (entry: Entry<'_, V>)
        requires
            old(self).wf(),
        ensures
            entry.wf(),
            entry.key_spec() == key@,
            entry.map() == old(self)@,
            entry is Occupied <==> old(self)@.contains_key(key@),
            entry.frame().wf_given(*final(entry.slot()), *final(entry.node())) ==> final(self).wf()
                && final(self)@ == entry.frame().map_given(*final(entry.slot()), *final(entry.node())),
    {
        let ghost before = self@;
        let (site, present) = locate_root(&mut self.root, key.as_slice());
        if present {
            Entry::new_occupied(key, site, Ghost(before))
        } else {
            Entry::new_vacant(key, site, Ghost(before))
        }
    }

    /// Stores `value` under `key` and hands back the value that was stored
    /// there before, if the key was present.
    pub fn insert(&mut self, key: Vec<u8>, value: V) -> (previous: Option<V>)
        requires
            old(self).wf(),
        ensures
            final(self).wf(),
            final(self)@ == old(self)@.insert(key@, value),
            previous == (if old(self)@.contains_key(key@) {
                Some(old(self)@[key@])
            } else {
                None
            }),
    {
        match self.entry(key) {
            Entry::Occupied(mut entry) => {
                let previous = entry.insert(value);
                proof {
                    entry.lemma_occupied();
                    entry.lemma_dropped();
                }
                Some(previous)
            },
            Entry::Vacant(entry) => {
                entry.put(value);
                None
            },
        }
    }

    /// Takes `key` out of the map and hands back its value, if the key was
    /// present.
    pub fn remove(&mut self, key: &[u8]) -> (removed: Option<V>)
        requires
            old(self).wf(),
        ensures
            final(self).wf(),
            final(self)@ == old(self)@.remove(key@),
            removed == (if old(self)@.contains_key(key@) {
                Some(old(self)@[key@])
            } else {
                None
            }),
    {
        let ghost before = self@;
        let (site, present) = locate_root(&mut self.root, key);
        if present {
            let (_, value) = site_remove(site, key, Ghost(before));
            Some(value)
        } else {
            proof {
                lemma_site_wf(site, key@, false, before);
                assert(before.remove(key@) =~= before);
            }
            None
        }
    }

    /// The number of nodes of the tree: its leaves and its internal nodes.
    pub closed spec fn node_count(self) -> nat {
        match self.root {
            Some(node) => node.node_count(),
            None => 0,
        }
    }

    /// The two maps are the same tree: node for node the same shape, the
    /// same prefixes and layouts, the same keys and values.
    pub closed spec fn same_tree(self, other: Self) -> bool {
        match self.root {
            Some(node) => other.root matches Some(twin) && node.same_tree(twin),
            None => other.root.is_none(),
        }
    }

    /// The shape of the tree is decided by what the map holds: two
    /// well-formed maps with the same keys and values are the same tree, and
    /// so have the same number of nodes.
    pub proof fn lemma_content_decides_shape(self, other: Self)
        requires
            self.wf(),
            other.wf(),
            self@ == other@,
        ensures
            self.same_tree(other),
            self.node_count() == other.node_count(),
    {
        let empty = Seq::<u8>::empty();
        assert forall|k: Seq<u8>| #[trigger] root_lookup(self.root, k) == root_lookup(other.root, k) by {
            assert(self@.dom().contains(k) == root_lookup(self.root, k).is_some());
            assert(other@.dom().contains(k) == root_lookup(other.root, k).is_some());
            if self@.dom().contains(k) {
                assert(self@[k] == root_lookup(self.root, k).unwrap());
                assert(other@[k] == root_lookup(other.root, k).unwrap());
            }
        }
        match self.root {
            Some(node) => {
                let k = lemma_has_key(node, empty);
                assert(root_lookup(self.root, k) == root_lookup(other.root, k));
                let twin = other.root.unwrap();
                assert forall|k: Seq<u8>| node.lookup(k, empty.len() as int) == twin.lookup(k, empty.len() as int) by {
                    assert(root_lookup(self.root, k) == root_lookup(other.root, k));
                }
                lemma_content_decides_shape(node, twin, empty);
                lemma_same_tree_node_count(node, twin, empty);
            },
            None => {
                if other.root.is_some() {
                    let k = lemma_has_key(other.root.unwrap(), empty);
                    assert(root_lookup(self.root, k) == root_lookup(other.root, k));
                }
            },
        }
    }

    /// A map that holds nothing has no nodes.
    pub proof fn lemma_empty_has_no_nodes(self)
        requires
            self.wf(),
            self@ == Map::<Seq<u8>, V>::empty(),
        ensures
            self.root().is_none(),
            self.node_count() == 0,
    {
        if self.root.is_some() {
            let k = lemma_has_key(self.root.unwrap(), Seq::<u8>::empty());
            assert(self@.contains_key(k));
        }
    }

    /// The map's keys in ascending order.
    pub fn keys(&self) -> (keys: Vec<Vec<u8>>)
        requires
            self.wf(),
        ensures
            strictly_sorted(key_views(keys@)),
            forall|i: int| 0 <= i < keys@.len() ==> self@.contains_key(#[trigger] keys@[i]@),
            forall|k: Seq<u8>| self@.contains_key(k) ==> listed(keys@, 0, k),
    {
        let mut keys: Vec<Vec<u8>> = Vec::new();
        match &self.root {
            Some(node) => {
                node.collect_keys(&mut keys, Ghost(Seq::empty()));
            },
            None => {},
        }
        keys
    }

    /// The lower bound of `key`: the leaf with the smallest key of the map
    /// that does not come before `key`, if the map has such a key.
    pub fn lower_bound(&self, key: &[u8]) -> (found: Option<&LeafNode<V>>)
        requires
            self.wf(),
        ensures
            match found {
                Some(leaf) => {
                    &&& self@.contains_key(leaf.key_spec())
                    &&& self@[leaf.key_spec()] == leaf.value_spec()
                    &&& !lex_lt(leaf.key_spec(), key@)
                    &&& forall|k: Seq<u8>| self@.contains_key(k) && !lex_lt(k, key@) ==> k == leaf.key_spec() || lex_lt(leaf.key_spec(), k)
                },
                None => forall|k: Seq<u8>| self@.contains_key(k) ==> lex_lt(k, key@),
            },
    {
        match self.root_node_ref() {
            Some(root) => {
                proof {
                    assert(key@.take(0) =~= Seq::<u8>::empty());
                }
                match root.find_lower_bound_node(key) {
                    Some(leaf) => Some(leaf.inner),
                    None => None,
                }
            },
            None => None,
        }
    }

    /// The upper bound of `key`: the leaf with the largest key of the map
    /// that does not come after `key`, if the map has such a key.
    pub fn upper_bound(&self, key: &[u8]) -> (found: Option<&LeafNode<V>>)
        requires
            self.wf(),
        ensures
            match found {
                Some(leaf) => {
                    &&& self@.contains_key(leaf.key_spec())
                    &&& self@[leaf.key_spec()] == leaf.value_spec()
                    &&& !lex_lt(key@, leaf.key_spec())
                    &&& forall|k: Seq<u8>| self@.contains_key(k) && !lex_lt(key@, k) ==> k == leaf.key_spec() || lex_lt(k, leaf.key_spec())
                },
                None => forall|k: Seq<u8>| self@.contains_key(k) ==> lex_lt(key@, k),
            },
    {
        match self.root_node_ref() {
            Some(root) => {
                proof {
                    assert(key@.take(0) =~= Seq::<u8>::empty());
                }
                match root.find_upper_bound_node(key) {
                    Some(leaf) => Some(leaf.inner),
                    None => None,
                }
            },
            None => None,
        }
    }

    /// The number of nodes of the tree, or the largest `usize` when there
    /// are more.
    pub fn count_nodes(&self) -> (n: usize)
        requires
            self.wf(),
        ensures
            n == saturated(self.node_count()),
    {
        match &self.root {
            Some(node) => node.count_nodes(Ghost(Seq::empty())),
            None => 0,
        }
    }

    /// A shared reference to the root node, if the map is not empty.
    pub fn root_node_ref(&self) -> (root: Option<NodeRef<'_, V>>)
        ensures
            match root {
                Some(node) => self.root() == Some(*node.inner) && node.prefix_len == 0,
                None => self.root().is_none(),
            },
    {
        match &self.root {
            Some(node) => Some(NodeRef::root_node_ref(node)),
            None => None,
        }
    }

    /// An exclusive reference to the root node, if the map is not empty.
    /// The map's root is afterwards what the reference leaves behind.
    pub fn root_node_mut(&mut self) -> (root: Option<NodeMut<'_, V>>)
        ensures
            match root {
                Some(node) => old(self).root() == Some(*node.inner) && node.prefix_len == 0
                    && final(self).root() == Some(*final(node.inner)),
                None => old(self).root().is_none() && final(self).root().is_none(),
            },
    {
        match &mut self.root {
            Some(node) => Some(NodeMut { inner: node, prefix_len: 0 }),
            None => None,
        }
    }
}

} // verus!
