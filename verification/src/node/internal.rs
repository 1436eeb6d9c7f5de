//! Internal nodes: the shared header and the tagged union of child layouts.

use vstd::prelude::*;
use crate::node::base::{match_prefix_at, prefix_match, PrefixMatchResult};
use crate::node::leaf::LeafNode;
use crate::node::node16::Node16Children;
use crate::node::node256::Node256Children;
use crate::node::node4::Node4Children;
use crate::node::node48::Node48Children;
use crate::node::partial_key::PartialKey;
use crate::node::sorted::SortedChildren;
use crate::node::{Node, NodeType};
use crate::util::{lemma_byte_set_finite, lemma_dom_len_insert, lemma_dom_len_remove};

verus! {

/// The child storage of an internal node, in one of its four layouts.
pub enum InternalNodeImpl<V> {
    Node4(Node4Children<V>),
    Node16(Node16Children<V>),
    Node48(Node48Children<V>),
    Node256(Node256Children<V>),
}

/// The header that all internal nodes share.
pub struct InternalNodeBase<V> {
    partial_key: PartialKey,
    leaf: Option<Box<LeafNode<V>>>,
    children_count: u16,
}

/// An internal node: the header and the children in their layout.
pub struct InternalNode<V> {
    base: InternalNodeBase<V>,
    children: InternalNodeImpl<V>,
}

/// The smallest layout that has room for `count` children.
pub open spec fn layout_for(count: nat) -> NodeType {
    if count <= 4 {
        NodeType::Node4
    } else if count <= 16 {
        NodeType::Node16
    } else if count <= 48 {
        NodeType::Node48
    } else {
        NodeType::Node256
    }
}

/// How many children a layout has room for.
pub open spec fn layout_capacity(layout: NodeType) -> nat {
    match layout {
        NodeType::Node4 => 4,
        NodeType::Node16 => 16,
        NodeType::Node48 => 48,
        NodeType::Node256 => 256,
        NodeType::Leaf => 0,
    }
}

impl<V> InternalNodeImpl<V> {
    /// The layout in use is well formed.
    pub open spec fn wf(self) -> bool {
        match self {
            InternalNodeImpl::Node4(c) => c.wf(),
            InternalNodeImpl::Node16(c) => c.wf(),
            InternalNodeImpl::Node48(c) => c.wf(),
            InternalNodeImpl::Node256(c) => c.wf(),
        }
    }

    /// The child stored under key byte `b`, if there is one.
    pub open spec fn child(self, b: u8) -> Option<Node<V>> {
        match self {
            InternalNodeImpl::Node4(c) => c.child(b),
            InternalNodeImpl::Node16(c) => c.child(b),
            InternalNodeImpl::Node48(c) => c.child(b),
            InternalNodeImpl::Node256(c) => c.child(b),
        }
    }

    /// The children by key byte.
    pub open spec fn view(self) -> Map<u8, Node<V>> {
        Map::new(|b: u8| self.child(b).is_some(), |b: u8| self.child(b).unwrap())
    }

    /// Number of children.
    pub open spec fn count(self) -> nat {
        self.view().dom().len()
    }

    /// Which layout the children are stored in.
    pub open spec fn layout(self) -> NodeType {
        match self {
            InternalNodeImpl::Node4(_) => NodeType::Node4,
            InternalNodeImpl::Node16(_) => NodeType::Node16,
            InternalNodeImpl::Node48(_) => NodeType::Node48,
            InternalNodeImpl::Node256(_) => NodeType::Node256,
        }
    }

    /// A child is structurally smaller than the container that holds it.
    pub proof fn lemma_child_decreases(self, b: u8)
        requires
            self.wf(),
            self.child(b).is_some(),
        ensures
            decreases_to!(self => self.child(b).unwrap()),
    {
        match self {
            InternalNodeImpl::Node4(c) => c.lemma_child_decreases(b),
            InternalNodeImpl::Node16(c) => c.lemma_child_decreases(b),
            InternalNodeImpl::Node48(c) => c.lemma_child_decreases(b),
            InternalNodeImpl::Node256(c) => c.lemma_child_decreases(b),
        }
    }

    /// A well-formed layout never holds more children than it has room for.
    pub proof fn lemma_count_bound(self)
        requires
            self.wf(),
        ensures
            self.count() <= layout_capacity(self.layout()),
    {
        lemma_byte_set_finite(self.view().dom());
        match self {
            InternalNodeImpl::Node4(c) => {
                assert(c.view().dom() =~= self.view().dom());
                c.lemma_count_bound();
            },
            InternalNodeImpl::Node16(c) => {
                assert(c.view().dom() =~= self.view().dom());
                c.lemma_count_bound();
            },
            InternalNodeImpl::Node48(c) => {
                assert(c.view().dom() =~= self.view().dom());
                c.lemma_count_bound();
            },
            InternalNodeImpl::Node256(c) => {},
        }
    }

    /// An empty container in the given layout.
    pub fn with_layout(layout: NodeType) -> (children: Self)
        requires
            layout != NodeType::Leaf,
        ensures
            children.wf(),
            children.layout() == layout,
            forall|b: u8| children.child(b).is_none(),
            children.count() == 0,
    {
        let children = match layout {
            NodeType::Node4 => InternalNodeImpl::Node4(SortedChildren::new()),
            NodeType::Node16 => InternalNodeImpl::Node16(SortedChildren::new()),
            NodeType::Node48 => InternalNodeImpl::Node48(Node48Children::new()),
            _ => InternalNodeImpl::Node256(Node256Children::new()),
        };
        proof {
            assert(children.view().dom() =~= Set::<u8>::empty());
        }
        children
    }

    /// The layout in which the children are stored.
    pub fn node_type(&self) -> (layout: NodeType)
        ensures
            layout == self.layout(),
    {
        match self {
            InternalNodeImpl::Node4(_) => NodeType::Node4,
            InternalNodeImpl::Node16(_) => NodeType::Node16,
            InternalNodeImpl::Node48(_) => NodeType::Node48,
            InternalNodeImpl::Node256(_) => NodeType::Node256,
        }
    }

    /// The key byte whose child sits at position `i` of the layout, if the
    /// position is in use.
    pub open spec fn key_at(self, i: int) -> Option<u8> {
        match self {
            InternalNodeImpl::Node4(c) => c.key_at(i),
            InternalNodeImpl::Node16(c) => c.key_at(i),
            InternalNodeImpl::Node48(c) => c.key_at(i),
            InternalNodeImpl::Node256(c) => c.key_at(i),
        }
    }

    /// No two positions hold the same key byte.
    pub proof fn lemma_positions_distinct(self, i: int, j: int)
        requires
            self.wf(),
            self.key_at(i).is_some(),
            self.key_at(i) == self.key_at(j),
        ensures
            i == j,
    {
        match self {
            InternalNodeImpl::Node4(c) => c.lemma_positions_distinct(i, j),
            InternalNodeImpl::Node16(c) => c.lemma_positions_distinct(i, j),
            InternalNodeImpl::Node48(c) => c.lemma_positions_distinct(i, j),
            InternalNodeImpl::Node256(c) => c.lemma_positions_distinct(i, j),
        }
    }

    /// The position of the child under `b` in the layout.
    pub fn find(&self, b: u8) -> (found: Option<usize>)
        requires
            self.wf(),
        ensures
            found.is_some() == self.child(b).is_some(),
            found matches Some(i) ==> self.key_at(i as int) == Some(b),
    {
        match self {
            InternalNodeImpl::Node4(c) => c.find(b),
            InternalNodeImpl::Node16(c) => c.find(b),
            InternalNodeImpl::Node48(c) => c.find(b),
            InternalNodeImpl::Node256(c) => c.find(b),
        }
    }

    /// The child at position `idx` of the layout.
    pub fn child_at(&self, idx: usize) -> (child: Option<&Node<V>>)
        requires
            self.wf(),
        ensures
            match child {
                Some(node) => self.key_at(idx as int) matches Some(b) && self.child(b) == Some(*node),
                None => self.key_at(idx as int).is_none(),
            },
    {
        match self {
            InternalNodeImpl::Node4(n) => n.child_at(idx),
            InternalNodeImpl::Node16(n) => n.child_at(idx),
            InternalNodeImpl::Node48(n) => n.child_at(idx),
            InternalNodeImpl::Node256(n) => n.child_at(idx),
        }
    }

    /// Writes `node` over the child at position `idx`, which is in use, and
    /// hands back the child that was there.
    pub fn set_child_at(&mut self, idx: usize, node: Node<V>) -> (displaced: Option<Node<V>>)
        requires
            old(self).wf(),
            old(self).key_at(idx as int).is_some(),
        ensures
            final(self).wf(),
            final(self).layout() == old(self).layout(),
            final(self).count() == old(self).count(),
            displaced == old(self).child(old(self).key_at(idx as int).unwrap()),
            displaced.is_some(),
            final(self).child(old(self).key_at(idx as int).unwrap()) == Some(node),
            forall|x: u8| x != old(self).key_at(idx as int).unwrap() ==> final(self).child(x) == old(self).child(x),
            forall|j: int| final(self).key_at(j) == old(self).key_at(j),
    {
        let ghost before = *self;
        let displaced = match self {
            InternalNodeImpl::Node4(n) => n.set_child_at(idx, node),
            InternalNodeImpl::Node16(n) => n.set_child_at(idx, node),
            InternalNodeImpl::Node48(n) => n.set_child_at(idx, node),
            InternalNodeImpl::Node256(n) => n.set_child_at(idx, node),
        };
        proof {
            lemma_dom_len_insert(before.view(), self.view(), before.key_at(idx as int).unwrap());
        }
        displaced
    }

    /// The child under key byte `b`.
    pub fn find_child(&self, b: u8) -> (child: Option<&Node<V>>)
        requires
            self.wf(),
        ensures
            child.is_some() == self.child(b).is_some(),
            child.is_some() ==> *child.unwrap() == self.child(b).unwrap(),
    {
        match self {
            InternalNodeImpl::Node4(c) => c.find_child(b),
            InternalNodeImpl::Node16(c) => c.find_child(b),
            InternalNodeImpl::Node48(c) => c.find_child(b),
            InternalNodeImpl::Node256(c) => c.find_child(b),
        }
    }

    /// Exclusive access to the child under key byte `b`. What is written
    /// through the reference is the child under `b` afterwards.
    pub fn find_child_mut(&mut self, b: u8) -> (child: Option<&mut Node<V>>)
        requires
            old(self).wf(),
        ensures
            final(self).wf(),
            final(self).layout() == old(self).layout(),
            child.is_some() == old(self).child(b).is_some(),
            child.is_some() ==> *child.unwrap() == old(self).child(b).unwrap(),
            child.is_some() ==> final(self).child(b) == Some(*final(child.unwrap())),
            child.is_none() ==> final(self).child(b).is_none(),
            forall|x: u8| x != b ==> final(self).child(x) == old(self).child(x),
    {
        match self {
            InternalNodeImpl::Node4(c) => c.find_child_mut(b),
            InternalNodeImpl::Node16(c) => c.find_child_mut(b),
            InternalNodeImpl::Node48(c) => c.find_child_mut(b),
            InternalNodeImpl::Node256(c) => c.find_child_mut(b),
        }
    }

    /// The child with the smallest key byte that is not below `from`.
    pub fn next_child(&self, from: u8) -> (next: Option<(u8, &Node<V>)>)
        requires
            self.wf(),
        ensures
            match next {
                Some((b, child)) => from <= b && self.child(b) == Some(*child)
                    && forall|x: u8| from <= x < b ==> self.child(x).is_none(),
                None => forall|x: u8| from <= x ==> self.child(x).is_none(),
            },
    {
        match self {
            InternalNodeImpl::Node4(c) => c.next_child(from),
            InternalNodeImpl::Node16(c) => c.next_child(from),
            InternalNodeImpl::Node48(c) => c.next_child(from),
            InternalNodeImpl::Node256(c) => c.next_child(from),
        }
    }

    /// The child with the largest key byte that is not above `upto`.
    pub fn prev_child(&self, upto: u8) -> (prev: Option<(u8, &Node<V>)>)
        requires
            self.wf(),
        ensures
            match prev {
                Some((b, child)) => b <= upto && self.child(b) == Some(*child)
                    && forall|x: u8| b < x <= upto ==> self.child(x).is_none(),
                None => forall|x: u8| x <= upto ==> self.child(x).is_none(),
            },
    {
        match self {
            InternalNodeImpl::Node4(c) => c.prev_child(upto),
            InternalNodeImpl::Node16(c) => c.prev_child(upto),
            InternalNodeImpl::Node48(c) => c.prev_child(upto),
            InternalNodeImpl::Node256(c) => c.prev_child(upto),
        }
    }

    /// Stores `node` under `b` and hands back the child it displaces. For a
    /// key byte that has no child yet the layout must have room.
    pub fn set_child(&mut self, b: u8, node: Node<V>) -> (displaced: Option<Node<V>>)
        requires
            old(self).wf(),
            old(self).child(b).is_none() ==> old(self).count() < layout_capacity(old(self).layout()),
        ensures
            final(self).wf(),
            final(self).layout() == old(self).layout(),
            displaced == old(self).child(b),
            final(self).child(b) == Some(node),
            forall|x: u8| x != b ==> final(self).child(x) == old(self).child(x),
            final(self).count() == old(self).count() + (if displaced.is_some() { 0int } else { 1int }),
    {
        let ghost before = *self;
        let displaced = match self {
            InternalNodeImpl::Node4(c) => {
                assert(c.view().dom() =~= before.view().dom());
                c.set_child(b, node)
            },
            InternalNodeImpl::Node16(c) => {
                assert(c.view().dom() =~= before.view().dom());
                c.set_child(b, node)
            },
            InternalNodeImpl::Node48(c) => {
                assert(c.view().dom() =~= before.view().dom());
                c.set_child(b, node)
            },
            InternalNodeImpl::Node256(c) => c.set_child(b, node),
        };
        proof {
            lemma_dom_len_insert(before.view(), self.view(), b);
        }
        displaced
    }

    /// Adds `node` as the child under `b`, which has none yet. When the
    /// layout is full it stays as it is and the node is handed back.
    pub fn insert_child(&mut self, b: u8, node: Node<V>) -> (overflow: Option<Node<V>>)
        requires
            old(self).wf(),
            old(self).child(b).is_none(),
        ensures
            final(self).wf(),
            final(self).layout() == old(self).layout(),
            overflow.is_some() <==> old(self).count() == layout_capacity(old(self).layout()),
            overflow matches Some(back) ==> back == node && final(self).count() == old(self).count(),
            overflow is Some ==> forall|x: u8| final(self).child(x) == old(self).child(x),
            overflow is None ==> final(self).count() == old(self).count() + 1 && final(self).child(b) == Some(node),
            overflow is None ==> forall|x: u8| x != b ==> final(self).child(x) == old(self).child(x),
    {
        let ghost before = *self;
        let overflow = match self {
            InternalNodeImpl::Node4(c) => {
                assert(c.view().dom() =~= before.view().dom());
                c.insert_child(b, node)
            },
            InternalNodeImpl::Node16(c) => {
                assert(c.view().dom() =~= before.view().dom());
                c.insert_child(b, node)
            },
            InternalNodeImpl::Node48(c) => {
                assert(c.view().dom() =~= before.view().dom());
                c.insert_child(b, node)
            },
            InternalNodeImpl::Node256(c) => {
                assert(c.view().dom() =~= before.view().dom());
                c.insert_child(b, node)
            },
        };
        proof {
            if overflow.is_none() {
                lemma_dom_len_insert(before.view(), self.view(), b);
            } else {
                assert(self.view().dom() =~= before.view().dom());
            }
        }
        overflow
    }

    /// Takes the child under `b` out.
    pub fn remove_child(&mut self, b: u8) -> (removed: Option<Node<V>>)
        requires
            old(self).wf(),
        ensures
            final(self).wf(),
            final(self).layout() == old(self).layout(),
            removed == old(self).child(b),
            final(self).child(b).is_none(),
            forall|x: u8| x != b ==> final(self).child(x) == old(self).child(x),
            final(self).count() == old(self).count() - (if removed.is_some() { 1int } else { 0int }),
    {
        let ghost before = *self;
        let removed = match self {
            InternalNodeImpl::Node4(c) => c.remove_child(b),
            InternalNodeImpl::Node16(c) => c.remove_child(b),
            InternalNodeImpl::Node48(c) => c.remove_child(b),
            InternalNodeImpl::Node256(c) => c.remove_child(b),
        };
        proof {
            lemma_dom_len_remove(before.view(), self.view(), b);
        }
        removed
    }

    /// Moves every child into a fresh container of the given layout, which
    /// must have room for them all.
    pub fn into_layout(self, layout: NodeType) -> (moved: Self)
        requires
            self.wf(),
            layout != NodeType::Leaf,
            self.count() <= layout_capacity(layout),
        ensures
            moved.wf(),
            moved.layout() == layout,
            forall|b: u8| moved.child(b) == self.child(b),
            moved.count() == self.count(),
    {
        let mut source = self;
        let mut target = InternalNodeImpl::with_layout(layout);
        let mut next: usize = 0;
        while next < 256
            invariant
                next <= 256,
                source.wf(),
                target.wf(),
                target.layout() == layout,
                layout != NodeType::Leaf,
                self.count() <= layout_capacity(layout),
                source.count() + target.count() == self.count(),
                forall|x: u8| x < next ==> source.child(x).is_none() && target.child(x) == self.child(x),
                forall|x: u8| x >= next ==> target.child(x).is_none() && source.child(x) == self.child(x),
            decreases 256 - next,
        {
            let b: u8 = next as u8;
            match source.remove_child(b) {
                Some(child) => {
                    target.set_child(b, child);
                },
                None => {},
            }
            next += 1;
        }
        proof {
            assert(target.view().dom() =~= self.view().dom());
        }
        target
    }
}

/// The smallest layout that has room for `count` children.
pub fn layout_for_count(count: usize) -> (layout: NodeType)
    ensures
        layout == layout_for(count as nat),
{
    if count <= 4 {
        NodeType::Node4
    } else if count <= 16 {
        NodeType::Node16
    } else if count <= 48 {
        NodeType::Node48
    } else {
        NodeType::Node256
    }
}

impl<V> InternalNodeBase<V> {
    /// The prefix storage is well formed.
    pub closed spec fn wf(self) -> bool {
        self.partial_key.wf()
    }

    /// The node's partial prefix.
    pub closed spec fn prefix(self) -> Seq<u8> {
        self.partial_key.view()
    }

    /// Whether the partial prefix is stored inline.
    pub closed spec fn prefix_is_inline(self) -> bool {
        self.partial_key.is_inline()
    }

    /// The leaf whose key ends at this node, if there is one.
    pub closed spec fn leaf(self) -> Option<LeafNode<V>> {
        match self.leaf {
            Some(leaf) => Some(*leaf),
            None => None,
        }
    }

    /// The number of children that the header records.
    pub closed spec fn children_count(self) -> nat {
        self.children_count as nat
    }

    /// The prefix is inline exactly when it has at most 16 bytes.
    pub proof fn lemma_prefix_storage(self)
        requires
            self.wf(),
        ensures
            self.prefix_is_inline() <==> self.prefix().len() <= 16,
    {
        self.partial_key.lemma_inline_iff_short();
    }

    /// A header with an empty prefix, no leaf and no children.
    pub fn new() -> (base: Self)
        ensures
            base.wf(),
            base.prefix() == Seq::<u8>::empty(),
            base.leaf().is_none(),
            base.children_count() == 0,
    {
        InternalNodeBase { partial_key: PartialKey::default(), leaf: None, children_count: 0 }
    }

    /// The node's partial prefix.
    pub fn partial_key(&self) -> (bytes: &[u8])
        requires
            self.wf(),
        ensures
            bytes@ == self.prefix(),
    {
        self.partial_key.as_slice()
    }

    /// Replaces the node's partial prefix.
    pub fn set_partial_key(&mut self, partial_key: &[u8])
        requires
            old(self).wf(),
        ensures
            final(self).wf(),
            final(self).prefix() == partial_key@,
            final(self).leaf() == old(self).leaf(),
            final(self).children_count() == old(self).children_count(),
    {
        self.partial_key.update(partial_key);
    }

    /// Puts `leaf_node` into the leaf slot and hands back the leaf it
    /// displaces.
    pub fn set_leaf(&mut self, leaf_node: Box<LeafNode<V>>) -> (displaced: Option<Box<LeafNode<V>>>)
        ensures
            final(self).wf() == old(self).wf(),
            final(self).prefix() == old(self).prefix(),
            final(self).prefix_is_inline() == old(self).prefix_is_inline(),
            final(self).children_count() == old(self).children_count(),
            final(self).leaf() == Some(*leaf_node),
            match displaced {
                Some(leaf) => old(self).leaf() == Some(*leaf),
                None => old(self).leaf().is_none(),
            },
    {
        let mut ret = Some(leaf_node);
        core::mem::swap(&mut self.leaf, &mut ret);
        ret
    }

    /// Empties the leaf slot and hands back what was in it.
    pub fn take_leaf(&mut self) -> (taken: Option<Box<LeafNode<V>>>)
        ensures
            final(self).wf() == old(self).wf(),
            final(self).prefix() == old(self).prefix(),
            final(self).prefix_is_inline() == old(self).prefix_is_inline(),
            final(self).children_count() == old(self).children_count(),
            final(self).leaf().is_none(),
            match taken {
                Some(leaf) => old(self).leaf() == Some(*leaf),
                None => old(self).leaf().is_none(),
            },
    {
        let mut ret = None;
        core::mem::swap(&mut self.leaf, &mut ret);
        ret
    }

    /// The leaf in the leaf slot.
    pub fn get_leaf(&self) -> (leaf: Option<&LeafNode<V>>)
        ensures
            match leaf {
                Some(l) => self.leaf() == Some(*l),
                None => self.leaf().is_none(),
            },
    {
        match &self.leaf {
            Some(leaf) => Some(&**leaf),
            None => None,
        }
    }

    /// Exclusive access to the leaf in the leaf slot.
    pub fn get_leaf_mut(&mut self) -> (leaf: Option<&mut LeafNode<V>>)
        ensures
            final(self).wf() == old(self).wf(),
            final(self).prefix() == old(self).prefix(),
            final(self).prefix_is_inline() == old(self).prefix_is_inline(),
            final(self).children_count() == old(self).children_count(),
            match leaf {
                Some(l) => old(self).leaf() == Some(*l) && final(self).leaf() == Some(*final(l)),
                None => old(self).leaf().is_none() && final(self).leaf().is_none(),
            },
    {
        match &mut self.leaf {
            Some(leaf) => Some(&mut **leaf),
            None => None,
        }
    }

    /// Whether the partial prefix is stored inline.
    pub fn is_prefix_inline(&self) -> (inline: bool)
        ensures
            inline == self.prefix_is_inline(),
    {
        match &self.partial_key {
            PartialKey::FixSized(_) => true,
            PartialKey::VarSized(_) => false,
        }
    }

    /// The length of the partial prefix.
    pub fn get_prefix_size(&self) -> (n: usize)
        requires
            self.wf(),
        ensures
            n == self.prefix().len(),
    {
        self.partial_key.len()
    }

    /// Matches the partial prefix against `keys`, the rest of a search key.
    pub fn match_prefix(&self, keys: &[u8]) -> (result: PrefixMatchResult)
        requires
            self.wf(),
        ensures
            result == prefix_match(self.prefix(), keys@),
    {
        let result = match_prefix_at(self.partial_key.as_slice(), keys, 0);
        assert(keys@.skip(0) =~= keys@);
        result
    }

    /// Matches the partial prefix against `keys`, the rest of a search key.
    pub fn search(&self, keys: &[u8]) -> (result: PrefixMatchResult)
        requires
            self.wf(),
        ensures
            result == prefix_match(self.prefix(), keys@),
    {
        self.match_prefix(keys)
    }
}

impl<V> InternalNode<V> {
    /// The header and the layout are each well formed, the header's count
    /// is the number of children, and the layout is the smallest that has
    /// room for them.
    pub closed spec fn wf(self) -> bool {
        &&& self.base.wf()
        &&& self.children.wf()
        &&& self.base.children_count() == self.children.count()
        &&& self.children.layout() == layout_for(self.children.count())
    }

    /// The node's partial prefix.
    pub closed spec fn prefix(self) -> Seq<u8> {
        self.base.prefix()
    }

    /// Whether the partial prefix is stored inline.
    pub closed spec fn prefix_is_inline(self) -> bool {
        self.base.prefix_is_inline()
    }

    /// The leaf whose key ends at this node, if there is one.
    pub closed spec fn leaf(self) -> Option<LeafNode<V>> {
        self.base.leaf()
    }

    /// The child stored under key byte `b`, if there is one.
    pub closed spec fn child(self, b: u8) -> Option<Node<V>> {
        self.children.child(b)
    }

    /// The children by key byte.
    pub open spec fn children(self) -> Map<u8, Node<V>> {
        Map::new(|b: u8| self.child(b).is_some(), |b: u8| self.child(b).unwrap())
    }

    /// Number of children.
    pub closed spec fn count(self) -> nat {
        self.children.count()
    }

    /// Which layout the children are stored in.
    pub closed spec fn layout(self) -> NodeType {
        self.children.layout()
    }

    /// The number of leaves directly in this node: its children and the
    /// leaf slot.
    pub open spec fn occupancy(self) -> nat {
        self.count() + (if self.leaf().is_some() { 1nat } else { 0nat })
    }

    /// The count is the number of key bytes that have a child.
    pub proof fn lemma_count(self)
        ensures
            self.children().dom().finite(),
            self.count() == self.children().dom().len(),
    {
        assert(self.children().dom() =~= self.children.view().dom());
        lemma_byte_set_finite(self.children().dom());
    }

    /// The layout is the smallest that has room for the children, and the
    /// prefix is inline exactly when it has at most 16 bytes.
    pub proof fn lemma_wf(self)
        requires
            self.wf(),
        ensures
            self.layout() == layout_for(self.count()),
            self.layout() != NodeType::Leaf,
            self.count() <= 256,
            self.prefix_is_inline() <==> self.prefix().len() <= 16,
    {
        self.base.lemma_prefix_storage();
        lemma_byte_set_finite(self.children.view().dom());
    }

    /// A child is structurally smaller than the node that holds it.
    pub proof fn lemma_child_decreases(self, b: u8)
        requires
            self.wf(),
            self.child(b).is_some(),
        ensures
            decreases_to!(self => self.child(b).unwrap()),
    {
        self.children.lemma_child_decreases(b);
    }

    /// A new node in the smallest layout with an empty prefix, no leaf and
    /// no children.
    pub fn new() -> (node: Box<Self>)
        ensures
            node.wf(),
            node.prefix() == Seq::<u8>::empty(),
            node.leaf().is_none(),
            forall|b: u8| node.child(b).is_none(),
            node.count() == 0,
            node.layout() == NodeType::Node4,
    {
        let node = Box::new(InternalNode { base: InternalNodeBase::new(), children: InternalNodeImpl::with_layout(NodeType::Node4) });
        node
    }

    /// The node's header.
    pub fn base(&self) -> (base: &InternalNodeBase<V>)
        ensures
            base.prefix() == self.prefix(),
            base.leaf() == self.leaf(),
            self.wf() ==> base.wf() && base.children_count() == self.count(),
    {
        &self.base
    }

    /// The layout in which the children are stored.
    pub fn node_type(&self) -> (layout: NodeType)
        ensures
            layout == self.layout(),
    {
        self.children.node_type()
    }

    /// Whether the partial prefix is stored inline.
    pub fn is_prefix_inline(&self) -> (inline: bool)
        ensures
            inline == self.prefix_is_inline(),
    {
        self.base.is_prefix_inline()
    }

    /// The number of children.
    pub fn children_count(&self) -> (n: usize)
        requires
            self.wf(),
        ensures
            n == self.count(),
    {
        self.base.children_count as usize
    }

    /// The node's partial prefix.
    pub fn partial_key(&self) -> (bytes: &[u8])
        requires
            self.wf(),
        ensures
            bytes@ == self.prefix(),
    {
        self.base.partial_key()
    }

    /// Replaces the node's partial prefix.
    pub fn set_partial_key(&mut self, partial_key: &[u8])
        requires
            old(self).wf(),
        ensures
            final(self).wf(),
            final(self).prefix() == partial_key@,
            final(self).leaf() == old(self).leaf(),
            final(self).layout() == old(self).layout(),
            final(self).count() == old(self).count(),
            forall|b: u8| final(self).child(b) == old(self).child(b),
            forall|i: int| final(self).key_at(i) == old(self).key_at(i),
    {
        self.base.set_partial_key(partial_key);
    }

    /// Puts `leaf_node` into the leaf slot and hands back the leaf it
    /// displaces.
    pub fn set_leaf(&mut self, leaf_node: Box<LeafNode<V>>) -> (displaced: Option<Box<LeafNode<V>>>)
        requires
            old(self).wf(),
        ensures
            final(self).wf(),
            final(self).prefix() == old(self).prefix(),
            final(self).layout() == old(self).layout(),
            final(self).count() == old(self).count(),
            forall|b: u8| final(self).child(b) == old(self).child(b),
            forall|i: int| final(self).key_at(i) == old(self).key_at(i),
            final(self).leaf() == Some(*leaf_node),
            match displaced {
                Some(leaf) => old(self).leaf() == Some(*leaf),
                None => old(self).leaf().is_none(),
            },
    {
        self.base.set_leaf(leaf_node)
    }

    /// Empties the leaf slot and hands back what was in it.
    pub fn take_leaf(&mut self) -> (taken: Option<Box<LeafNode<V>>>)
        requires
            old(self).wf(),
        ensures
            final(self).wf(),
            final(self).prefix() == old(self).prefix(),
            final(self).layout() == old(self).layout(),
            final(self).count() == old(self).count(),
            forall|b: u8| final(self).child(b) == old(self).child(b),
            forall|i: int| final(self).key_at(i) == old(self).key_at(i),
            final(self).leaf().is_none(),
            match taken {
                Some(leaf) => old(self).leaf() == Some(*leaf),
                None => old(self).leaf().is_none(),
            },
    {
        self.base.take_leaf()
    }

    /// The leaf in the leaf slot.
    pub fn get_leaf(&self) -> (leaf: Option<&LeafNode<V>>)
        ensures
            match leaf {
                Some(l) => self.leaf() == Some(*l),
                None => self.leaf().is_none(),
            },
    {
        self.base.get_leaf()
    }

    /// Exclusive access to the leaf in the leaf slot.
    pub fn get_leaf_mut(&mut self) -> (leaf: Option<&mut LeafNode<V>>)
        requires
            old(self).wf(),
        ensures
            final(self).wf(),
            final(self).prefix() == old(self).prefix(),
            final(self).layout() == old(self).layout(),
            final(self).count() == old(self).count(),
            forall|b: u8| final(self).child(b) == old(self).child(b),
            forall|i: int| final(self).key_at(i) == old(self).key_at(i),
            match leaf {
                Some(l) => old(self).leaf() == Some(*l) && final(self).leaf() == Some(*final(l)),
                None => old(self).leaf().is_none() && final(self).leaf().is_none(),
            },
    {
        self.base.get_leaf_mut()
    }

    /// The key byte whose child sits at position `i` of the layout, if the
    /// position is in use.
    pub closed spec fn key_at(self, i: int) -> Option<u8> {
        self.children.key_at(i)
    }

    /// No two positions hold the same key byte.
    pub proof fn lemma_positions_distinct(self, i: int, j: int)
        requires
            self.wf(),
            self.key_at(i).is_some(),
            self.key_at(i) == self.key_at(j),
        ensures
            i == j,
    {
        self.children.lemma_positions_distinct(i, j);
    }

    /// The position of the child under `key_byte`, if there is one.
    pub fn find(&self, key_byte: u8) -> (found: Option<usize>)
        requires
            self.wf(),
        ensures
            found.is_some() == self.child(key_byte).is_some(),
            found matches Some(i) ==> self.key_at(i as int) == Some(key_byte),
    {
        self.children.find(key_byte)
    }

    /// The child at position `idx`.
    pub fn child_at(&self, idx: usize) -> (child: Option<&Node<V>>)
        requires
            self.wf(),
        ensures
            match child {
                Some(node) => self.key_at(idx as int) matches Some(b) && self.child(b) == Some(*node),
                None => self.key_at(idx as int).is_none(),
            },
    {
        self.children.child_at(idx)
    }

    /// Writes `node` over the child at position `idx`, which is in use, and
    /// hands back the child that was there.
    pub fn set_child_at(&mut self, idx: usize, node: Node<V>) -> (displaced: Option<Node<V>>)
        requires
            old(self).wf(),
            old(self).key_at(idx as int).is_some(),
        ensures
            final(self).wf(),
            final(self).prefix() == old(self).prefix(),
            final(self).leaf() == old(self).leaf(),
            final(self).layout() == old(self).layout(),
            final(self).count() == old(self).count(),
            displaced == old(self).child(old(self).key_at(idx as int).unwrap()),
            displaced.is_some(),
            final(self).child(old(self).key_at(idx as int).unwrap()) == Some(node),
            forall|x: u8| x != old(self).key_at(idx as int).unwrap() ==> final(self).child(x) == old(self).child(x),
            forall|j: int| final(self).key_at(j) == old(self).key_at(j),
    {
        self.children.set_child_at(idx, node)
    }

    /// Stores `node` under `key_byte`: over the child that is there, which
    /// is handed back, or else as a new child.
    pub fn set_child(&mut self, key_byte: u8, node: Node<V>) -> (displaced: Option<Node<V>>)
        requires
            old(self).wf(),
        ensures
            final(self).wf(),
            final(self).prefix() == old(self).prefix(),
            final(self).leaf() == old(self).leaf(),
            displaced == old(self).child(key_byte),
            final(self).child(key_byte) == Some(node),
            forall|x: u8| x != key_byte ==> final(self).child(x) == old(self).child(x),
            final(self).count() == old(self).count() + (if displaced.is_some() { 0int } else { 1int }),
    {
        match self.children.find(key_byte) {
            Some(idx) => self.children.set_child_at(idx, node),
            None => {
                self.insert_child(key_byte, node);
                None
            },
        }
    }

    /// The child under key byte `b`.
    pub fn find_child(&self, b: u8) -> (child: Option<&Node<V>>)
        requires
            self.wf(),
        ensures
            child.is_some() == self.child(b).is_some(),
            child.is_some() ==> *child.unwrap() == self.child(b).unwrap(),
    {
        self.children.find_child(b)
    }

    /// Exclusive access to the child under key byte `b`. What is written
    /// through the reference is the child under `b` afterwards.
    pub fn find_child_mut(&mut self, b: u8) -> (child: Option<&mut Node<V>>)
        requires
            old(self).wf(),
        ensures
            final(self).prefix() == old(self).prefix(),
            final(self).leaf() == old(self).leaf(),
            final(self).layout() == old(self).layout(),
            child.is_some() ==> final(self).wf() && final(self).count() == old(self).count(),
            child.is_some() == old(self).child(b).is_some(),
            child.is_some() ==> *child.unwrap() == old(self).child(b).unwrap(),
            child.is_some() ==> final(self).child(b) == Some(*final(child.unwrap())),
            child.is_none() ==> final(self).child(b).is_none(),
            forall|x: u8| x != b ==> final(self).child(x) == old(self).child(x),
    {
        proof {
            let me = *self;
            assert forall|after: InternalNodeImpl<V>|
                me.children.child(b).is_some() && after.child(b).is_some()
                && (forall|x: u8| x != b ==> after.child(x) == me.children.child(x))
                implies #[trigger] after.count() == me.children.count() by {
                lemma_dom_len_insert(me.children.view(), after.view(), b);
            }
        }
        self.children.find_child_mut(b)
    }

    /// The child with the smallest key byte that is not below `from`.
    pub fn next_child(&self, from: u8) -> (next: Option<(u8, &Node<V>)>)
        requires
            self.wf(),
        ensures
            match next {
                Some((b, child)) => from <= b && self.child(b) == Some(*child)
                    && forall|x: u8| from <= x < b ==> self.child(x).is_none(),
                None => forall|x: u8| from <= x ==> self.child(x).is_none(),
            },
    {
        self.children.next_child(from)
    }

    /// The child with the largest key byte that is not above `upto`.
    pub fn prev_child(&self, upto: u8) -> (prev: Option<(u8, &Node<V>)>)
        requires
            self.wf(),
        ensures
            match prev {
                Some((b, child)) => b <= upto && self.child(b) == Some(*child)
                    && forall|x: u8| b < x <= upto ==> self.child(x).is_none(),
                None => forall|x: u8| x <= upto ==> self.child(x).is_none(),
            },
    {
        self.children.prev_child(upto)
    }

    /// Adds `node` as the child under `b`, which has none yet. When the
    /// layout is full the children first move to the next larger one.
    pub fn insert_child(&mut self, b: u8, node: Node<V>)
        requires
            old(self).wf(),
            old(self).child(b).is_none(),
        ensures
            final(self).wf(),
            final(self).prefix() == old(self).prefix(),
            final(self).leaf() == old(self).leaf(),
            final(self).child(b) == Some(node),
            forall|x: u8| x != b ==> final(self).child(x) == old(self).child(x),
            final(self).count() == old(self).count() + 1,
    {
        proof {
            let dom = self.children.view().dom();
            lemma_byte_set_finite(dom);
            lemma_byte_set_finite(dom.insert(b));
            assert(!dom.contains(b));
            assert(dom.insert(b).len() == dom.len() + 1);
        }
        match self.children.insert_child(b, node) {
            None => {},
            Some(node) => {
                let larger = self.children.node_type().grown();
                let mut taken = InternalNodeImpl::with_layout(NodeType::Node4);
                core::mem::swap(&mut self.children, &mut taken);
                self.children = taken.into_layout(larger);
                self.children.set_child(b, node);
            },
        }
        self.base.children_count = self.base.children_count + 1;
    }

    /// Takes the child under `b` out. When the remaining children fit the
    /// next smaller layout they move there.
    pub fn remove_child(&mut self, b: u8) -> (removed: Option<Node<V>>)
        requires
            old(self).wf(),
        ensures
            final(self).wf(),
            final(self).prefix() == old(self).prefix(),
            final(self).leaf() == old(self).leaf(),
            removed == old(self).child(b),
            final(self).child(b).is_none(),
            forall|x: u8| x != b ==> final(self).child(x) == old(self).child(x),
            final(self).count() == old(self).count() - (if removed.is_some() { 1int } else { 0int }),
    {
        proof {
            self.lemma_count();
            self.children.lemma_count_bound();
        }
        let removed = self.children.remove_child(b);
        if removed.is_some() {
            self.base.children_count = self.base.children_count - 1;
            let wanted = layout_for_count(self.base.children_count as usize);
            if wanted != self.children.node_type() {
                let mut taken = InternalNodeImpl::with_layout(NodeType::Node4);
                core::mem::swap(&mut self.children, &mut taken);
                self.children = taken.into_layout(wanted);
            }
        }
        removed
    }
}

} // verus!
