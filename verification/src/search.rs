//! Descending the tree for a key.

use vstd::prelude::*;
use crate::node::base::{lemma_match_extends_path, match_prefix_at, prefix_match, PrefixMatchResult};
use crate::node::{InternalNodeRef, LeafNodeRef, Node, NodeImpl, NodeRef};
use crate::util::suffix_eq;

verus! {

/// What one step of a search, or a whole search, ends in.
pub enum SearchResult<'a, V> {
    /// The key is present, in this leaf.
    Found(LeafNodeRef<'a, V>),
    /// The search goes on at this child.
    GoDown(NodeRef<'a, V>),
    /// The key is absent; the node is the deepest one on the key's path.
    NotFound(NodeRef<'a, V>),
}

/// What a search for `key` does at `node`, which sits `depth` bytes below
/// the root.
///
/// At a leaf the key is found or it is absent. At an internal node a key
/// that does not continue the partial prefix is absent; one that ends with
/// it is found in the node's leaf slot or absent; a longer one goes down to
/// the child under the next byte, or is absent when there is none.
pub open spec fn search_step<'a, V>(node: &'a Node<V>, key: Seq<u8>, depth: int, result: SearchResult<'a, V>) -> bool {
    let here = NodeRef { inner: node, prefix_len: depth as usize };
    match *node {
        Node::Leaf(leaf) => if leaf.key_spec() == key {
            result matches SearchResult::Found(found) && *found.inner == *leaf && found.prefix_len == depth
        } else {
            result == SearchResult::NotFound(here)
        },
        Node::Internal(node) => {
            let below = depth + node.prefix().len();
            match prefix_match(node.prefix(), key.skip(depth)) {
                PrefixMatchResult::Fail => result == SearchResult::NotFound(here),
                PrefixMatchResult::Exact => match node.leaf() {
                    Some(leaf) => result matches SearchResult::Found(found) && *found.inner == leaf && found.prefix_len == below,
                    None => result == SearchResult::NotFound(here),
                },
                PrefixMatchResult::Extra => match node.child(key[below]) {
                    Some(child) => result matches SearchResult::GoDown(next) && *next.inner == child && next.prefix_len == below + 1,
                    None => result == SearchResult::NotFound(here),
                },
            }
        },
    }
}

/// The node at which the search for `key` ends when it starts at `node`,
/// and the depth of that node: the first node on the way down from which
/// the search does not go down.
pub open spec fn search_end<V>(node: Node<V>, key: Seq<u8>, depth: int) -> (Node<V>, int)
    decreases node,
    via search_end_decreases::<V>
{
    match node {
        Node::Leaf(_) => (node, depth),
        Node::Internal(inner) => {
            let below = depth + inner.prefix().len();
            if inner.wf() && 0 <= depth <= key.len() && prefix_match(inner.prefix(), key.skip(depth)) == PrefixMatchResult::Extra
                && inner.child(key[below]).is_some() {
                search_end(inner.child(key[below]).unwrap(), key, below + 1)
            } else {
                (node, depth)
            }
        },
    }
}

#[via_fn]
proof fn search_end_decreases<V>(node: Node<V>, key: Seq<u8>, depth: int) {
    match node {
        Node::Leaf(_) => {},
        Node::Internal(inner) => {
            let below = depth + inner.prefix().len();
            if inner.wf() && inner.child(key[below]).is_some() {
                inner.lemma_child_decreases(key[below]);
            }
        },
    }
}

impl<'a, V> InternalNodeRef<'a, V> {
    /// One step of the search at an internal node.
    pub fn search_node(self, key: &[u8]) -> (result: SearchResult<'a, V>)
        requires
            self.wf(),
            self.prefix_len <= key@.len(),
            self.node.wf(key@.take(self.prefix_len as int)),
        ensures
            search_step(self.node, key@, self.prefix_len as int, result),
    {
        let this_partial_prefix = self.partial_key();
        let key_len: usize = key.len();
        assert(key@.len() == key_len);
        match match_prefix_at(this_partial_prefix, key, self.prefix_len) {
            PrefixMatchResult::Fail => SearchResult::NotFound(self.forget_type()),
            PrefixMatchResult::Exact => {
                proof {
                    lemma_match_extends_path(self.inner.prefix(), key@, self.prefix_len as int);
                }
                match self.get_leaf() {
                    Some(leaf) => SearchResult::Found(leaf),
                    None => SearchResult::NotFound(self.forget_type()),
                }
            },
            PrefixMatchResult::Extra => {
                proof {
                    lemma_match_extends_path(self.inner.prefix(), key@, self.prefix_len as int);
                }
                let new_prefix_len = self.prefix_len + this_partial_prefix.len();
                let k = key[new_prefix_len];
                match self.find_child(k) {
                    Some(child) => SearchResult::GoDown(child),
                    None => SearchResult::NotFound(self.forget_type()),
                }
            },
        }
    }
}

impl<'a, V> LeafNodeRef<'a, V> {
    /// The search at a leaf: the key is found when what is left of it
    /// below the leaf's depth is what is left of the leaf's key. `node` is
    /// the node this reference points into, which the search names where it
    /// does not find the key.
    pub fn search_node(self, node: &'a Node<V>, key: &[u8]) -> (result: SearchResult<'a, V>)
        requires
            *node == Node::Leaf(Box::new(*self.inner)),
            self.prefix_len <= key@.len(),
            node.wf(key@.take(self.prefix_len as int)),
        ensures
            search_step(node, key@, self.prefix_len as int, result),
    {
        let leaf_key = self.inner.key_ref();
        let ghost depth = self.prefix_len as int;
        if suffix_eq(key, self.prefix_len, leaf_key.as_slice(), self.prefix_len) {
            proof {
                assert(key@ =~= key@.take(depth) + key@.skip(depth));
                assert(leaf_key@ =~= leaf_key@.take(depth) + leaf_key@.skip(depth));
                assert(leaf_key@.take(depth) =~= key@.take(depth));
            }
            SearchResult::Found(self)
        } else {
            SearchResult::NotFound(NodeRef { inner: node, prefix_len: self.prefix_len })
        }
    }
}

impl<'a, V> NodeRef<'a, V> {
    /// One step of the search, at whatever kind of node this is.
    pub fn search_node(self, key: &[u8]) -> (result: SearchResult<'a, V>)
        requires
            self.prefix_len <= key@.len(),
            self.inner.wf(key@.take(self.prefix_len as int)),
        ensures
            search_step(self.inner, key@, self.prefix_len as int, result),
    {
        let node = self.inner;
        match self.downcast() {
            NodeImpl::Internal(internal) => internal.search_node(key),
            NodeImpl::Leaf(leaf) => leaf.search_node(node, key),
        }
    }

    /// Searches the subtree below this node for `key`, which is known to
    /// lead here.
    ///
    /// The search ends in the leaf that holds the key, or in the deepest
    /// node on the key's path when the key is absent; it never ends on the
    /// way down.
    pub fn search_tree(self, key: &[u8]) -> (result: SearchResult<'a, V>)
        requires
            self.prefix_len <= key@.len(),
            self.inner.wf(key@.take(self.prefix_len as int)),
        ensures
            match result {
                SearchResult::Found(leaf) => leaf.inner.key_spec() == key@
                    && self.inner.lookup(key@, self.prefix_len as int) == Some(leaf.inner.value_spec())
                    && search_step(&search_end(*self.inner, key@, self.prefix_len as int).0, key@, search_end(*self.inner, key@, self.prefix_len as int).1, result),
                SearchResult::NotFound(site) => self.inner.lookup(key@, self.prefix_len as int).is_none()
                    && self.prefix_len <= site.prefix_len <= key@.len()
                    && site.inner.wf(key@.take(site.prefix_len as int))
                    && (*site.inner, site.prefix_len as int) == search_end(*self.inner, key@, self.prefix_len as int)
                    && search_step(site.inner, key@, site.prefix_len as int, result),
                SearchResult::GoDown(_) => false,
            },
    {
        let mut cur = self;
        loop
            invariant
                self.prefix_len <= cur.prefix_len <= key@.len(),
                cur.inner.wf(key@.take(cur.prefix_len as int)),
                self.inner.lookup(key@, self.prefix_len as int) == cur.inner.lookup(key@, cur.prefix_len as int),
                search_end(*self.inner, key@, self.prefix_len as int) == search_end(*cur.inner, key@, cur.prefix_len as int),
            decreases key@.len() - cur.prefix_len,
        {
            let ghost at = NodeRef { inner: cur.inner, prefix_len: cur.prefix_len };
            match cur.search_node(key) {
                SearchResult::Found(leaf) => {
                    proof {
                        lemma_found_key(at.inner, key@, at.prefix_len as int);
                    }
                    return SearchResult::Found(leaf);
                },
                SearchResult::GoDown(node) => {
                    proof {
                        lemma_go_down(at.inner, key@, at.prefix_len as int);
                    }
                    cur = node;
                },
                SearchResult::NotFound(site) => {
                    proof {
                        lemma_found_key(at.inner, key@, at.prefix_len as int);
                    }
                    return SearchResult::NotFound(site);
                },
            }
        }
    }
}

/// Where a search step finds the key at a well-formed node, the leaf it
/// finds holds the key; and where it does not go down, it decides the lookup.
pub proof fn lemma_found_key<V>(node: &Node<V>, key: Seq<u8>, depth: int)
    requires
        0 <= depth <= key.len(),
        node.wf(key.take(depth)),
    ensures
        match *node {
            Node::Leaf(leaf) => true,
            Node::Internal(inner) => prefix_match(inner.prefix(), key.skip(depth)) == PrefixMatchResult::Exact
                && inner.leaf().is_some() ==> inner.leaf().unwrap().key_spec() == key,
        },
{
    match *node {
        Node::Leaf(leaf) => {},
        Node::Internal(inner) => {
            if prefix_match(inner.prefix(), key.skip(depth)) == PrefixMatchResult::Exact {
                lemma_match_extends_path(inner.prefix(), key, depth);
                assert(key.take(key.len() as int) =~= key);
            }
        },
    }
}

/// Where a search step goes down from a well-formed node, the child is well
/// formed one prefix and one byte further along the key.
pub proof fn lemma_go_down<V>(node: &Node<V>, key: Seq<u8>, depth: int)
    requires
        0 <= depth <= key.len(),
        node.wf(key.take(depth)),
    ensures
        match *node {
            Node::Leaf(leaf) => true,
            Node::Internal(inner) => {
                let below = depth + inner.prefix().len();
                prefix_match(inner.prefix(), key.skip(depth)) == PrefixMatchResult::Extra && inner.child(key[below]).is_some()
                    ==> below < key.len() && inner.child(key[below]).unwrap().wf(key.take(below + 1))
            },
        },
{
    match *node {
        Node::Leaf(leaf) => {},
        Node::Internal(inner) => {
            let below = depth + inner.prefix().len();
            if prefix_match(inner.prefix(), key.skip(depth)) == PrefixMatchResult::Extra && inner.child(key[below]).is_some() {
                lemma_match_extends_path(inner.prefix(), key, depth);
            }
        },
    }
}

} // verus!
