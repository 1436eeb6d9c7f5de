//! The node system: leaves, the internal-node family and its child layouts.

use vstd::prelude::*;
use crate::node::base::{prefix_match, PrefixMatchResult};
use crate::node::internal::InternalNode;
use crate::marker::{Immut, Internal, InternalOrLeaf, Leaf, Owned, Reference};
use crate::node::leaf::LeafNode;
use crate::util::suffix;

pub mod base;
pub mod handle;
pub mod leaf;
pub mod partial_key;
pub mod sorted;
pub mod node4;
pub mod node16;
pub mod node48;
pub mod node256;
pub mod internal;

verus! {

/// The kinds of node: the four internal layouts, and the leaf.
#[derive(Clone, Copy, PartialEq, Eq, Structural)]
pub enum NodeType {
    Node4,
    Node16,
    Node48,
    Node256,
    Leaf,
}

impl NodeType {
    /// Whether this is one of the internal layouts.
    pub fn is_internal(&self) -> (internal: bool)
        ensures
            internal == (*self != NodeType::Leaf),
    {
        match self {
            NodeType::Leaf => false,
            _ => true,
        }
    }

    /// The next larger layout; the largest layout and the leaf stay as they
    /// are.
    pub open spec fn next_larger(self) -> NodeType {
        match self {
            NodeType::Node4 => NodeType::Node16,
            NodeType::Node16 => NodeType::Node48,
            NodeType::Node48 => NodeType::Node256,
            NodeType::Node256 => NodeType::Node256,
            NodeType::Leaf => NodeType::Leaf,
        }
    }

    /// The layout to which a full node of this layout grows.
    pub fn grown(&self) -> (larger: NodeType)
        ensures
            larger == self.next_larger(),
    {
        match self {
            NodeType::Node4 => NodeType::Node16,
            NodeType::Node16 => NodeType::Node48,
            NodeType::Node48 => NodeType::Node256,
            NodeType::Node256 => NodeType::Node256,
            NodeType::Leaf => NodeType::Leaf,
        }
    }

    /// Whether this is the leaf kind.
    pub fn is_leaf(&self) -> (leaf: bool)
        ensures
            leaf == (*self == NodeType::Leaf),
    {
        !self.is_internal()
    }
}

/// A node of the tree: a leaf, or an internal node that owns its children.
pub enum Node<V> {
    Leaf(Box<LeafNode<V>>),
    Internal(Box<InternalNode<V>>),
}

/// A shared reference to a node, with the number of key bytes that lead from
/// the root to it. The depth is not stored in the node.
pub struct NodeRef<'a, V> {
    pub inner: &'a Node<V>,
    pub prefix_len: usize,
}

/// A shared reference to a node that is known to be internal: the node,
/// its internal part, and its depth.
pub struct InternalNodeRef<'a, V> {
    pub node: &'a Node<V>,
    pub inner: &'a InternalNode<V>,
    pub prefix_len: usize,
}

/// A shared reference to a leaf and its depth.
pub struct LeafNodeRef<'a, V> {
    pub inner: &'a LeafNode<V>,
    pub prefix_len: usize,
}

/// A node reference whose kind is known.
pub enum NodeImpl<'a, V> {
    Internal(InternalNodeRef<'a, V>),
    Leaf(LeafNodeRef<'a, V>),
}

impl<'a, V> Reference for NodeRef<'a, V> {
    type Borrow = Immut<'a>;

    type Kind = InternalOrLeaf;
}

impl<'a, V> Reference for InternalNodeRef<'a, V> {
    type Borrow = Immut<'a>;

    type Kind = Internal;
}

impl<'a, V> Reference for LeafNodeRef<'a, V> {
    type Borrow = Immut<'a>;

    type Kind = Leaf;
}

impl<V> Reference for Node<V> {
    type Borrow = Owned;

    type Kind = InternalOrLeaf;
}

impl<'a, V> Clone for NodeRef<'a, V> {
    fn clone(&self) -> (copy: Self)
        ensures
            copy == *self,
    {
        NodeRef { inner: self.inner, prefix_len: self.prefix_len }
    }
}

impl<'a, V> Copy for NodeRef<'a, V> {
}

impl<'a, V> Clone for InternalNodeRef<'a, V> {
    fn clone(&self) -> (copy: Self)
        ensures
            copy == *self,
    {
        InternalNodeRef { node: self.node, inner: self.inner, prefix_len: self.prefix_len }
    }
}

impl<'a, V> Copy for InternalNodeRef<'a, V> {
}

impl<'a, V> Clone for LeafNodeRef<'a, V> {
    fn clone(&self) -> (copy: Self)
        ensures
            copy == *self,
    {
        LeafNodeRef { inner: self.inner, prefix_len: self.prefix_len }
    }
}

impl<'a, V> Copy for LeafNodeRef<'a, V> {
}

impl<'a, V> NodeRef<'a, V> {
    /// A reference to the root of a tree: no key byte leads to it.
    pub fn root_node_ref(node: &'a Node<V>) -> (root: Self)
        ensures
            root.inner == node,
            root.prefix_len == 0,
    {
        NodeRef { inner: node, prefix_len: 0 }
    }

    /// The number of key bytes that lead from the root to the node.
    pub fn prefix_len(&self) -> (depth: usize)
        ensures
            depth == self.prefix_len,
    {
        self.prefix_len
    }

    /// The node that is referred to.
    pub fn get_inner(&self) -> (node: &'a Node<V>)
        ensures
            node == self.inner,
    {
        self.inner
    }

    /// Tells an internal node from a leaf.
    pub fn downcast(self) -> (kind: NodeImpl<'a, V>)
        ensures
            match kind {
                NodeImpl::Internal(node) => node.wf() && node.node == self.inner && node.prefix_len == self.prefix_len,
                NodeImpl::Leaf(leaf) => *self.inner == Node::Leaf(Box::new(*leaf.inner)) && leaf.prefix_len == self.prefix_len,
            },
    {
        match self.inner {
            Node::Leaf(leaf) => NodeImpl::Leaf(LeafNodeRef { inner: &**leaf, prefix_len: self.prefix_len }),
            Node::Internal(node) => NodeImpl::Internal(InternalNodeRef { node: self.inner, inner: &**node, prefix_len: self.prefix_len }),
        }
    }
}

impl<'a, V> LeafNodeRef<'a, V> {
    /// The number of key bytes that lead from the root to the node.
    pub fn prefix_len(&self) -> (depth: usize)
        ensures
            depth == self.prefix_len,
    {
        self.prefix_len
    }

    /// The part of the leaf's key below its depth.
    pub fn partial_key(&self) -> (rest: &'a [u8])
        ensures
            rest@ == suffix(self.inner.key_spec(), self.prefix_len as int),
    {
        self.inner.partial_key(self.prefix_len)
    }

    /// The value stored in the leaf.
    pub fn value_ref(&self) -> (value: &'a V)
        ensures
            *value == self.inner.value_spec(),
    {
        self.inner.value_ref()
    }
}

impl<'a, V> InternalNodeRef<'a, V> {
    /// The node that is referred to is the internal node that is referred
    /// to.
    pub open spec fn wf(self) -> bool {
        *self.node == Node::Internal(Box::new(*self.inner))
    }

    /// The number of key bytes that lead from the root to the node.
    pub fn prefix_len(&self) -> (depth: usize)
        ensures
            depth == self.prefix_len,
    {
        self.prefix_len
    }

    /// The node's partial prefix.
    pub fn partial_key(&self) -> (bytes: &'a [u8])
        requires
            self.inner.wf(),
        ensures
            bytes@ == self.inner.prefix(),
    {
        self.inner.partial_key()
    }

    /// The leaf whose key ends at this node, at the depth where it ends.
    pub fn get_leaf(&self) -> (leaf: Option<LeafNodeRef<'a, V>>)
        requires
            self.inner.wf(),
            self.prefix_len + self.inner.prefix().len() <= usize::MAX,
        ensures
            match leaf {
                Some(l) => self.inner.leaf() == Some(*l.inner) && l.prefix_len == self.prefix_len + self.inner.prefix().len(),
                None => self.inner.leaf().is_none(),
            },
    {
        let depth = self.prefix_len + self.inner.partial_key().len();
        match self.inner.get_leaf() {
            Some(leaf) => Some(LeafNodeRef { inner: leaf, prefix_len: depth }),
            None => None,
        }
    }

    /// The child under key byte `k`, one prefix and one byte further down.
    pub fn find_child(&self, k: u8) -> (child: Option<NodeRef<'a, V>>)
        requires
            self.inner.wf(),
            self.prefix_len + self.inner.prefix().len() + 1 <= usize::MAX,
        ensures
            match child {
                Some(c) => self.inner.child(k) == Some(*c.inner) && c.prefix_len == self.prefix_len + self.inner.prefix().len() + 1,
                None => self.inner.child(k).is_none(),
            },
    {
        let depth = self.prefix_len + self.inner.partial_key().len() + 1;
        match self.inner.find_child(k) {
            Some(child) => Some(NodeRef { inner: child, prefix_len: depth }),
            None => None,
        }
    }

    /// The first child whose key byte is not below `k`, with that byte.
    pub fn find_next_child(&self, k: u8) -> (next: Option<(u8, NodeRef<'a, V>)>)
        requires
            self.inner.wf(),
            self.prefix_len + self.inner.prefix().len() + 1 <= usize::MAX,
        ensures
            match next {
                Some((b, c)) => k <= b && self.inner.child(b) == Some(*c.inner)
                    && c.prefix_len == self.prefix_len + self.inner.prefix().len() + 1
                    && forall|x: u8| k <= x < b ==> self.inner.child(x).is_none(),
                None => forall|x: u8| k <= x ==> self.inner.child(x).is_none(),
            },
    {
        let depth = self.prefix_len + self.inner.partial_key().len() + 1;
        match self.inner.next_child(k) {
            Some((b, child)) => Some((b, NodeRef { inner: child, prefix_len: depth })),
            None => None,
        }
    }

    /// The same reference without the knowledge of the node's kind.
    pub fn forget_type(self) -> (any: NodeRef<'a, V>)
        ensures
            any.inner == self.node,
            any.prefix_len == self.prefix_len,
    {
        NodeRef { inner: self.node, prefix_len: self.prefix_len }
    }
}

impl<V> Node<V> {
    /// The value that a search for `key` finds in this subtree, when the
    /// subtree sits `depth` bytes below the root.
    ///
    /// A leaf answers for its own key. An internal node matches its partial
    /// prefix against `key[depth..]`: a key that ends with the prefix is
    /// answered by the node's own leaf, a longer one by the child under the
    /// byte that follows the prefix.
    pub open spec fn lookup(self, key: Seq<u8>, depth: int) -> Option<V>
        decreases self,
        via Self::lookup_decreases
    {
        match self {
            Node::Leaf(leaf) => if leaf.key_spec() == key {
                Some(leaf.value_spec())
            } else {
                None
            },
            Node::Internal(node) => {
                if node.wf() && 0 <= depth <= key.len() {
                    match prefix_match(node.prefix(), key.skip(depth)) {
                        PrefixMatchResult::Fail => None,
                        PrefixMatchResult::Exact => match node.leaf() {
                            Some(leaf) => if leaf.key_spec() == key {
                                Some(leaf.value_spec())
                            } else {
                                None
                            },
                            None => None,
                        },
                        PrefixMatchResult::Extra => match node.child(key[depth + node.prefix().len()]) {
                            Some(child) => child.lookup(key, depth + node.prefix().len() + 1),
                            None => None,
                        },
                    }
                } else {
                    None
                }
            },
        }
    }

    #[via_fn]
    proof fn lookup_decreases(self, key: Seq<u8>, depth: int) {
        match self {
            Node::Leaf(_) => {},
            Node::Internal(node) => {
                if node.wf() && 0 <= depth <= key.len() {
                    let b = key[depth + node.prefix().len()];
                    if node.child(b).is_some() {
                        node.lemma_child_decreases(b);
                    }
                }
            },
        }
    }

    /// The structural invariant of a subtree whose root is reached from the
    /// tree's root along the bytes `path`.
    ///
    /// Every leaf's key starts with the path that leads to it. An internal
    /// node is well formed in itself, holds at least two leaves or subtrees,
    /// keeps in its leaf slot exactly the key that ends at it, and each of
    /// its children is well formed one prefix and one key byte further down.
    pub open spec fn wf(self, path: Seq<u8>) -> bool
        decreases self,
        via Self::wf_decreases
    {
        match self {
            Node::Leaf(leaf) => path.is_prefix_of(leaf.key_spec()),
            Node::Internal(node) => {
                &&& node.wf()
                &&& node.occupancy() >= 2
                &&& (node.leaf() matches Some(leaf) ==> leaf.key_spec() == path + node.prefix())
                &&& forall|b: u8| node.child(b).is_some() ==> (#[trigger] node.child(b)).unwrap().wf((path + node.prefix()).push(b))
            },
        }
    }

    #[via_fn]
    proof fn wf_decreases(self, path: Seq<u8>) {
        match self {
            Node::Leaf(_) => {},
            Node::Internal(node) => {
                assert forall|b: u8| node.wf() && (#[trigger] node.child(b)).is_some() implies decreases_to!(self => node.child(b).unwrap()) by {
                    node.lemma_child_decreases(b);
                }
            },
        }
    }

    /// Every key of a well-formed subtree starts with the path that leads to
    /// the subtree.
    pub proof fn lemma_keys_extend_path(self, path: Seq<u8>, key: Seq<u8>)
        requires
            self.wf(path),
            self.lookup(key, path.len() as int).is_some(),
        ensures
            path.is_prefix_of(key),
        decreases self,
    {
        match self {
            Node::Leaf(_) => {},
            Node::Internal(node) => {
                let depth = path.len() as int;
                match prefix_match(node.prefix(), key.skip(depth)) {
                    PrefixMatchResult::Fail => {},
                    PrefixMatchResult::Exact => {
                        assert(path =~= (path + node.prefix()).subrange(0, depth));
                    },
                    PrefixMatchResult::Extra => {
                        let b = key[depth + node.prefix().len()];
                        let below = (path + node.prefix()).push(b);
                        node.lemma_child_decreases(b);
                        node.child(b).unwrap().lemma_keys_extend_path(below, key);
                        assert(path =~= below.subrange(0, depth));
                        assert(below =~= key.subrange(0, below.len() as int));
                    },
                }
            },
        }
    }
}

} // verus!
