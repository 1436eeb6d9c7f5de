//! Handles: a slot of an internal node, named by the node and a position
//! in it.

use vstd::prelude::*;
use vstd::std_specs::convert::FromSpecImpl;
use crate::node::internal::InternalNode;
use crate::node::{LeafNodeRef, Node, NodeImpl, NodeRef};

verus! {

/// Position of a child in its parent, packed into sixteen bits: a value up
/// to `0xFF` is the child's position in the parent's layout, any larger
/// value stands for the parent's leaf slot.
#[derive(Debug, Clone, Copy)]
pub struct ChildPos {
    idx: u16,
}

impl ChildPos {
    /// The packed value.
    pub closed spec fn idx(self) -> u16 {
        self.idx
    }

    /// The position in the layout, widened; `None` for the leaf slot.
    pub fn to_idx(self) -> (idx: Option<u32>)
        ensures
            idx == (if self.idx() > 0xFF {
                None
            } else {
                Some(self.idx() as u32)
            }),
    {
        if self.idx > 0xFF {
            None
        } else {
            Some(self.idx as u32)
        }
    }

    /// How a position is packed: a position in the layout as it is, the
    /// leaf slot as `0xFFFF`.
    pub proof fn lemma_from_spec(input: Option<u8>)
        ensures
            <ChildPos as vstd::std_specs::convert::FromSpec<Option<u8>>>::from_spec(input).idx() == (match input {
                Some(b) => b as u16,
                None => 0xFFFFu16,
            }),
    {
    }

    /// The position as a `NodePos`.
    pub fn to_pos(self) -> (pos: NodePos)
        ensures
            pos == (if self.idx() > 0xFF {
                NodePos::Leaf
            } else {
                NodePos::Child(self.idx() as usize)
            }),
    {
        if self.idx > 0xFF {
            NodePos::Leaf
        } else {
            NodePos::Child(self.idx as usize)
        }
    }
}

impl From<Option<u8>> for ChildPos {
    fn from(input: Option<u8>) -> (pos: Self) {
        match input {
            Some(idx) => ChildPos { idx: idx as u16 },
            None => ChildPos { idx: 0xFFFF },
        }
    }
}

impl FromSpecImpl<Option<u8>> for ChildPos {
    open spec fn obeys_from_spec() -> bool {
        true
    }

    /// A position in the layout is packed as it is, the leaf slot as
    /// `0xFFFF`.
    closed spec fn from_spec(input: Option<u8>) -> Self {
        match input {
            Some(idx) => ChildPos { idx: idx as u16 },
            None => ChildPos { idx: 0xFFFF },
        }
    }
}

/// Position of a node in an internal node.
#[derive(Clone, Copy, PartialEq, Eq, Structural)]
pub enum NodePos {
    /// The child at this position of the layout.
    Child(usize),
    /// The leaf slot.
    Leaf,
}

/// A handle names one slot of an internal node. It is what is needed to
/// change a node where it hangs: the parent and the place in it.
pub struct Handle<'a, V> {
    pub node: &'a mut InternalNode<V>,
    pub prefix_len: usize,
    pub pos: NodePos,
}

/// What the slot at `pos` of `node` holds.
pub open spec fn slot_at<V>(node: InternalNode<V>, pos: NodePos) -> Option<Node<V>> {
    match pos {
        NodePos::Child(idx) => match node.key_at(idx as int) {
            Some(b) => node.child(b),
            None => None,
        },
        NodePos::Leaf => match node.leaf() {
            Some(leaf) => Some(Node::Leaf(Box::new(leaf))),
            None => None,
        },
    }
}

impl<'a, V> Handle<'a, V> {
    /// The internal node whose slot the handle names, as it stands.
    pub open spec fn parent(self) -> InternalNode<V> {
        *self.node
    }

    /// What the slot that the handle names holds.
    pub open spec fn slot(self) -> Option<Node<V>> {
        slot_at(self.parent(), self.pos)
    }

    /// A handle for the slot at `pos` of `node`, which lies `prefix_len`
    /// key bytes below the root.
    pub fn new(node: &'a mut InternalNode<V>, prefix_len: usize, pos: NodePos) -> (handle: Self)
        ensures
            handle.parent() == *old(node),
            handle.prefix_len == prefix_len,
            handle.pos == pos,
            *final(node) == *final(handle.node),
    {
        Handle { node, prefix_len, pos }
    }

    /// The node in the slot that the handle names, with the depth at which
    /// it lies: a child one prefix and one key byte below the parent, the
    /// leaf of the leaf slot one prefix below it.
    pub fn resolve_node(&self) -> (found: Option<NodeImpl<'_, V>>)
        requires
            self.parent().wf(),
            self.prefix_len + self.parent().prefix().len() + 1 <= usize::MAX,
        ensures
            match found {
                Some(NodeImpl::Internal(inner)) => self.slot() == Some(Node::Internal(Box::new(*inner.inner)))
                    && inner.prefix_len == self.prefix_len + self.parent().prefix().len() + 1,
                Some(NodeImpl::Leaf(leaf)) => self.slot() == Some(Node::Leaf(Box::new(*leaf.inner)))
                    && leaf.prefix_len == self.prefix_len + self.parent().prefix().len() + (if self.pos is Leaf {
                    0int
                } else {
                    1int
                }),
                None => self.slot().is_none(),
            },
    {
        let below: usize = self.prefix_len + self.node.partial_key().len();
        match self.pos {
            NodePos::Child(idx) => match self.node.child_at(idx) {
                Some(child) => Some(NodeRef { inner: child, prefix_len: below + 1 }.downcast()),
                None => None,
            },
            NodePos::Leaf => match self.node.get_leaf() {
                Some(leaf) => Some(NodeImpl::Leaf(LeafNodeRef { inner: leaf, prefix_len: below })),
                None => None,
            },
        }
    }

    /// Writes `new_node` into the slot that the handle names and hands back
    /// what the slot held. Only a leaf can go into the leaf slot, and a
    /// child slot must be occupied already: the handle replaces, it does
    /// not add.
    pub fn replace_node(&mut self, new_node: Node<V>) -> (displaced: Option<Node<V>>)
        requires
            old(self).parent().wf(),
            old(self).pos is Leaf ==> new_node is Leaf,
            old(self).pos is Child ==> old(self).slot().is_some(),
        ensures
            final(self).pos == old(self).pos,
            final(self).prefix_len == old(self).prefix_len,
            *final(final(self).node) == *final(old(self).node),
            final(self).parent().wf(),
            final(self).parent().prefix() == old(self).parent().prefix(),
            final(self).parent().count() == old(self).parent().count(),
            displaced == old(self).slot(),
            final(self).slot() == Some(new_node),
            forall|pos: NodePos| pos != old(self).pos ==> slot_at(final(self).parent(), pos) == slot_at(old(self).parent(), pos),
    {
        match self.pos {
            NodePos::Child(idx) => {
                let ghost before = *self.node;
                let displaced = self.node.set_child_at(idx, new_node);
                proof {
                    assert forall|pos: NodePos| pos != NodePos::Child(idx) implies slot_at(*self.node, pos) == slot_at(before, pos) by {
                        if let NodePos::Child(other) = pos {
                            if before.key_at(other as int).is_some() {
                                if before.key_at(other as int) == before.key_at(idx as int) {
                                    before.lemma_positions_distinct(idx as int, other as int);
                                }
                            }
                        }
                    }
                }
                displaced
            },
            NodePos::Leaf => match new_node {
                Node::Leaf(leaf) => match self.node.set_leaf(leaf) {
                    Some(old_leaf) => Some(Node::Leaf(old_leaf)),
                    None => None,
                },
                Node::Internal(_) => None,
            },
        }
    }
}

} // verus!
