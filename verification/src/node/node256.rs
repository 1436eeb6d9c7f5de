//! The largest child layout: one slot for every key byte.

use vstd::prelude::*;
use crate::node::Node;
use crate::util::lemma_byte_set_finite;

verus! {

/// The number of children that the layout has room for.
pub const NODE256_CAPACITY: usize = 256;

/// Children indexed directly by their key byte.
pub struct Node256Children<V> {
    children: Vec<Option<Node<V>>>,
}

impl<V> Node256Children<V> {
    /// There is one slot for each of the 256 key bytes.
    pub closed spec fn wf(self) -> bool {
        self.children@.len() == NODE256_CAPACITY
    }

    /// The child stored under key byte `b`, if there is one.
    pub closed spec fn child(self, b: u8) -> Option<Node<V>> {
        self.children@[b as int]
    }

    /// The children by key byte.
    pub open spec fn view(self) -> Map<u8, Node<V>> {
        Map::new(|b: u8| self.child(b).is_some(), |b: u8| self.child(b).unwrap())
    }

    /// Number of children.
    pub open spec fn count(self) -> nat {
        self.view().dom().len()
    }

    /// A child is structurally smaller than the container that holds it.
    pub proof fn lemma_child_decreases(self, b: u8)
        requires
            self.wf(),
            self.child(b).is_some(),
        ensures
            decreases_to!(self => self.child(b).unwrap()),
    {
        broadcast use vstd::std_specs::vec::axiom_vec_index_decreases;
        assert(decreases_to!(self.children => self.children[b as int]));
    }

    /// An empty layout.
    pub fn new() -> (children: Self)
        ensures
            children.wf(),
            forall|b: u8| children.child(b).is_none(),
    {
        let mut slots: Vec<Option<Node<V>>> = Vec::with_capacity(NODE256_CAPACITY);
        let mut i: usize = 0;
        while i < NODE256_CAPACITY
            invariant
                i <= NODE256_CAPACITY,
                slots@.len() == i,
                forall|j: int| 0 <= j < i ==> slots@[j].is_none(),
            decreases NODE256_CAPACITY - i,
        {
            slots.push(None);
            i += 1;
        }
        Node256Children { children: slots }
    }

    /// The key byte of slot `i`, if the slot is in use: the slot's own
    /// number.
    pub closed spec fn key_at(self, i: int) -> Option<u8> {
        if 0 <= i < NODE256_CAPACITY && self.children@[i].is_some() {
            Some(i as u8)
        } else {
            None
        }
    }

    /// No two slots hold the same key byte.
    pub proof fn lemma_positions_distinct(self, i: int, j: int)
        requires
            self.wf(),
            self.key_at(i).is_some(),
            self.key_at(i) == self.key_at(j),
        ensures
            i == j,
    {
    }

    /// The slot of `b`, if `b` has a child.
    pub fn find(&self, b: u8) -> (found: Option<usize>)
        requires
            self.wf(),
        ensures
            found.is_some() == self.child(b).is_some(),
            found matches Some(i) ==> self.key_at(i as int) == Some(b),
    {
        if self.children[b as usize].is_some() {
            Some(b as usize)
        } else {
            None
        }
    }

    /// The child in slot `i`.
    pub fn child_at(&self, i: usize) -> (child: Option<&Node<V>>)
        requires
            self.wf(),
        ensures
            match child {
                Some(node) => self.key_at(i as int) matches Some(b) && self.child(b) == Some(*node),
                None => self.key_at(i as int).is_none(),
            },
    {
        if i < NODE256_CAPACITY {
            self.children[i].as_ref()
        } else {
            None
        }
    }

    /// Writes `node` over the child in slot `i`, which is in use, and hands
    /// back the child that was there.
    pub fn set_child_at(&mut self, i: usize, node: Node<V>) -> (displaced: Option<Node<V>>)
        requires
            old(self).wf(),
            old(self).key_at(i as int).is_some(),
        ensures
            final(self).wf(),
            displaced == old(self).child(old(self).key_at(i as int).unwrap()),
            displaced.is_some(),
            final(self).child(old(self).key_at(i as int).unwrap()) == Some(node),
            forall|x: u8| x != old(self).key_at(i as int).unwrap() ==> final(self).child(x) == old(self).child(x),
            forall|j: int| final(self).key_at(j) == old(self).key_at(j),
    {
        let mut slot = Some(node);
        core::mem::swap(&mut self.children[i], &mut slot);
        slot
    }

    /// The child under key byte `b`.
    pub fn find_child(&self, b: u8) -> (child: Option<&Node<V>>)
        requires
            self.wf(),
        ensures
            child.is_some() == self.child(b).is_some(),
            child.is_some() ==> *child.unwrap() == self.child(b).unwrap(),
    {
        self.children[b as usize].as_ref()
    }

    /// Exclusive access to the child under key byte `b`. What is written
    /// through the reference is the child under `b` afterwards.
    pub fn find_child_mut(&mut self, b: u8) -> (child: Option<&mut Node<V>>)
        requires
            old(self).wf(),
        ensures
            final(self).wf(),
            child.is_some() == old(self).child(b).is_some(),
            child.is_some() ==> *child.unwrap() == old(self).child(b).unwrap(),
            child.is_some() ==> final(self).child(b) == Some(*final(child.unwrap())),
            child.is_none() ==> final(self).child(b).is_none(),
            forall|x: u8| x != b ==> final(self).child(x) == old(self).child(x),
    {
        self.children[b as usize].as_mut()
    }

    /// The child with the smallest key byte that is not below `from`.
    pub fn next_child(&self, from: u8) -> (next: Option<(u8, &Node<V>)>)
        requires
            self.wf(),
        ensures
            match next {
                Some((b, child)) => from <= b && self.child(b) == Some(*child)
                    && forall|x: u8| from <= x < b ==> self.child(x).is_none(),
                None => forall|x: u8| from <= x ==> self.child(x).is_none(),
            },
    {
        let mut i: usize = from as usize;
        while i < NODE256_CAPACITY
            invariant
                self.wf(),
                from <= i <= NODE256_CAPACITY,
                forall|x: u8| from <= x < i ==> self.child(x).is_none(),
            decreases NODE256_CAPACITY - i,
        {
            match &self.children[i] {
                Some(child) => {
                    return Some((i as u8, child));
                },
                None => {},
            }
            i += 1;
        }
        None
    }

    /// The child with the largest key byte that is not above `upto`.
    pub fn prev_child(&self, upto: u8) -> (prev: Option<(u8, &Node<V>)>)
        requires
            self.wf(),
        ensures
            match prev {
                Some((b, child)) => b <= upto && self.child(b) == Some(*child)
                    && forall|x: u8| b < x <= upto ==> self.child(x).is_none(),
                None => forall|x: u8| x <= upto ==> self.child(x).is_none(),
            },
    {
        let mut i: usize = upto as usize + 1;
        while i > 0
            invariant
                self.wf(),
                i <= upto + 1,
                forall|x: u8| i <= x <= upto ==> self.child(x).is_none(),
            decreases i,
        {
            match &self.children[i - 1] {
                Some(child) => {
                    return Some(((i - 1) as u8, child));
                },
                None => {},
            }
            i -= 1;
        }
        None
    }

    /// Stores `node` under `b` and hands back the child it displaces.
    pub fn set_child(&mut self, b: u8, node: Node<V>) -> (displaced: Option<Node<V>>)
        requires
            old(self).wf(),
        ensures
            final(self).wf(),
            displaced == old(self).child(b),
            final(self).child(b) == Some(node),
            forall|x: u8| x != b ==> final(self).child(x) == old(self).child(x),
    {
        let mut slot = Some(node);
        core::mem::swap(&mut self.children[b as usize], &mut slot);
        slot
    }

    /// Adds `node` as the child under `b`, which has none yet. There is
    /// always room, so nothing is ever handed back.
    pub fn insert_child(&mut self, b: u8, node: Node<V>) -> (overflow: Option<Node<V>>)
        requires
            old(self).wf(),
            old(self).child(b).is_none(),
        ensures
            final(self).wf(),
            overflow.is_none(),
            old(self).count() < NODE256_CAPACITY,
            final(self).child(b) == Some(node),
            forall|x: u8| x != b ==> final(self).child(x) == old(self).child(x),
    {
        proof {
            let dom = self.view().dom();
            lemma_byte_set_finite(dom);
            lemma_byte_set_finite(dom.insert(b));
            assert(!dom.contains(b));
            assert(dom.insert(b).len() == dom.len() + 1);
        }
        self.set_child(b, node);
        None
    }

    /// Takes the child under `b` out.
    pub fn remove_child(&mut self, b: u8) -> (removed: Option<Node<V>>)
        requires
            old(self).wf(),
        ensures
            final(self).wf(),
            removed == old(self).child(b),
            final(self).child(b).is_none(),
            forall|x: u8| x != b ==> final(self).child(x) == old(self).child(x),
    {
        let mut slot = None;
        core::mem::swap(&mut self.children[b as usize], &mut slot);
        slot
    }
}

} // verus!
