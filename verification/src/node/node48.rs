//! The third child layout: a 256-entry index into 48 child slots.

use vstd::prelude::*;
use crate::node::Node;
use crate::util::lemma_byte_set_finite;

verus! {

/// The number of children that the layout has room for.
pub const NODE48_CAPACITY: usize = 48;

/// The index entry of a key byte that has no child.
pub const EMPTY_SLOT: u8 = 0xFF;

/// Children in 48 slots, found through an index with one entry per key
/// byte.
pub struct Node48Children<V> {
    keys: Vec<u8>,
    children: Vec<Option<Node<V>>>,
}

impl<V> Node48Children<V> {
    /// Every indexed key byte points at an occupied slot of its own, and
    /// every occupied slot is pointed at.
    pub closed spec fn wf(self) -> bool {
        &&& self.keys@.len() == 256
        &&& self.children@.len() == NODE48_CAPACITY
        &&& forall|b: int| 0 <= b < 256 && self.keys@[b] != EMPTY_SLOT ==> self.keys@[b] < NODE48_CAPACITY && self.children@[self.keys@[b] as int].is_some()
        &&& forall|a: int, b: int| 0 <= a < 256 && 0 <= b < 256 && a != b && self.keys@[a] != EMPTY_SLOT ==> self.keys@[a] != self.keys@[b]
        &&& forall|i: int| 0 <= i < NODE48_CAPACITY && self.children@[i].is_some() ==> 0 <= self.owner(i) < 256 && self.keys@[self.owner(i)] == i
    }

    /// A key byte whose index entry is slot `i`.
    pub closed spec fn owner(self, i: int) -> int {
        choose|b: int| 0 <= b < 256 && self.keys@[b] == i
    }

    /// The child stored under key byte `b`, if there is one.
    pub closed spec fn child(self, b: u8) -> Option<Node<V>> {
        if self.keys@[b as int] != EMPTY_SLOT {
            self.children@[self.keys@[b as int] as int]
        } else {
            None
        }
    }

    /// The children by key byte.
    pub open spec fn view(self) -> Map<u8, Node<V>> {
        Map::new(|b: u8| self.child(b).is_some(), |b: u8| self.child(b).unwrap())
    }

    /// Number of children.
    pub open spec fn count(self) -> nat {
        self.view().dom().len()
    }

    /// A child is structurally smaller than the container that holds it.
    pub proof fn lemma_child_decreases(self, b: u8)
        requires
            self.wf(),
            self.child(b).is_some(),
        ensures
            decreases_to!(self => self.child(b).unwrap()),
    {
        broadcast use vstd::std_specs::vec::axiom_vec_index_decreases;
        assert(decreases_to!(self.children => self.children[self.keys@[b as int] as int]));
    }

    /// There are never more children than slots.
    pub proof fn lemma_count_bound(self)
        requires
            self.wf(),
        ensures
            self.count() <= NODE48_CAPACITY,
    {
        let dom = self.view().dom();
        lemma_byte_set_finite(dom);
        let f = |b: u8| self.keys@[b as int] as int;
        let slots = vstd::set_lib::set_int_range(0, NODE48_CAPACITY as int);
        vstd::set_lib::lemma_int_range(0, NODE48_CAPACITY as int);
        let image = dom.map(f);
        assert(vstd::relations::injective_on(f, dom));
        vstd::set_lib::lemma_map_size(dom, image, f);
        assert(image.subset_of(slots));
        vstd::set_lib::lemma_len_subset(image, slots);
    }

    /// While a slot is free there are fewer than 48 children.
    proof fn lemma_not_full(self, free: int)
        requires
            self.wf(),
            0 <= free < NODE48_CAPACITY,
            self.children@[free].is_none(),
        ensures
            self.count() < NODE48_CAPACITY,
    {
        let dom = self.view().dom();
        lemma_byte_set_finite(dom);
        let f = |b: u8| self.keys@[b as int] as int;
        let slots = vstd::set_lib::set_int_range(0, NODE48_CAPACITY as int);
        vstd::set_lib::lemma_int_range(0, NODE48_CAPACITY as int);
        let image = dom.map(f);
        assert(vstd::relations::injective_on(f, dom));
        vstd::set_lib::lemma_map_size(dom, image, f);
        assert(image.subset_of(slots.remove(free)));
        vstd::set_lib::lemma_len_subset(image, slots.remove(free));
    }

    /// When every slot is occupied there are 48 children.
    proof fn lemma_full(self)
        requires
            self.wf(),
            forall|i: int| 0 <= i < NODE48_CAPACITY ==> self.children@[i].is_some(),
        ensures
            self.count() == NODE48_CAPACITY,
    {
        let dom = self.view().dom();
        lemma_byte_set_finite(dom);
        let f = |b: u8| self.keys@[b as int] as int;
        let slots = vstd::set_lib::set_int_range(0, NODE48_CAPACITY as int);
        vstd::set_lib::lemma_int_range(0, NODE48_CAPACITY as int);
        assert(vstd::relations::injective_on(f, dom));
        assert(dom.map(f) =~= slots) by {
            assert forall|i: int| slots.contains(i) implies dom.map(f).contains(i) by {
                let b = self.owner(i) as u8;
                assert(dom.contains(b) && f(b) == i);
            }
        }
        vstd::set_lib::lemma_map_size(dom, slots, f);
    }

    /// An empty layout.
    pub fn new() -> (children: Self)
        ensures
            children.wf(),
            forall|b: u8| children.child(b).is_none(),
    {
        let mut keys: Vec<u8> = Vec::with_capacity(256);
        let mut i: usize = 0;
        while i < 256
            invariant
                i <= 256,
                keys@.len() == i,
                forall|j: int| 0 <= j < i ==> keys@[j] == EMPTY_SLOT,
            decreases 256 - i,
        {
            keys.push(EMPTY_SLOT);
            i += 1;
        }
        let mut slots: Vec<Option<Node<V>>> = Vec::with_capacity(NODE48_CAPACITY);
        let mut j: usize = 0;
        while j < NODE48_CAPACITY
            invariant
                j <= NODE48_CAPACITY,
                slots@.len() == j,
                forall|k: int| 0 <= k < j ==> slots@[k].is_none(),
            decreases NODE48_CAPACITY - j,
        {
            slots.push(None);
            j += 1;
        }
        Node48Children { keys, children: slots }
    }

    /// The key byte whose child is in slot `i`, if the slot is in use.
    pub closed spec fn key_at(self, i: int) -> Option<u8> {
        if 0 <= i < NODE48_CAPACITY && self.children@[i].is_some() {
            Some(self.owner(i) as u8)
        } else {
            None
        }
    }

    /// Slot `p` is the first free slot: it is not in use, and every slot
    /// before it is.
    pub open spec fn is_first_free(self, p: int) -> bool {
        &&& 0 <= p < NODE48_CAPACITY
        &&& self.key_at(p).is_none()
        &&& forall|j: int| 0 <= j < p ==> (#[trigger] self.key_at(j)).is_some()
    }

    /// No two slots hold the same key byte.
    pub proof fn lemma_positions_distinct(self, i: int, j: int)
        requires
            self.wf(),
            self.key_at(i).is_some(),
            self.key_at(i) == self.key_at(j),
        ensures
            i == j,
    {
        assert(self.keys@[self.owner(i)] == i);
        assert(self.keys@[self.owner(j)] == j);
    }

    /// The slot of `b`, if `b` has a child.
    pub fn find(&self, b: u8) -> (found: Option<usize>)
        requires
            self.wf(),
        ensures
            found.is_some() == self.child(b).is_some(),
            found matches Some(i) ==> self.key_at(i as int) == Some(b),
    {
        let slot = self.keys[b as usize];
        if slot != EMPTY_SLOT {
            proof {
                let owner = self.owner(slot as int);
                assert(self.keys@[owner] == slot);
            }
            Some(slot as usize)
        } else {
            None
        }
    }

    /// The child in slot `i`.
    pub fn child_at(&self, i: usize) -> (child: Option<&Node<V>>)
        requires
            self.wf(),
        ensures
            match child {
                Some(node) => self.key_at(i as int) matches Some(b) && self.child(b) == Some(*node),
                None => self.key_at(i as int).is_none(),
            },
    {
        if i < NODE48_CAPACITY {
            self.children[i].as_ref()
        } else {
            None
        }
    }

    /// Writes `node` over the child in slot `i`, which is in use, and hands
    /// back the child that was there.
    pub fn set_child_at(&mut self, i: usize, node: Node<V>) -> (displaced: Option<Node<V>>)
        requires
            old(self).wf(),
            old(self).key_at(i as int).is_some(),
        ensures
            final(self).wf(),
            displaced == old(self).child(old(self).key_at(i as int).unwrap()),
            displaced.is_some(),
            final(self).child(old(self).key_at(i as int).unwrap()) == Some(node),
            forall|x: u8| x != old(self).key_at(i as int).unwrap() ==> final(self).child(x) == old(self).child(x),
            forall|j: int| final(self).key_at(j) == old(self).key_at(j),
    {
        let ghost me = *self;
        let mut place = Some(node);
        core::mem::swap(&mut self.children[i], &mut place);
        proof {
            assert(self.keys == me.keys);
            assert forall|j: int| 0 <= j < NODE48_CAPACITY && self.children@[j].is_some() implies 0 <= self.owner(j) < 256 && self.keys@[self.owner(
                j,
            )] == j by {
                assert(me.children@[j].is_some());
                assert(me.keys@[me.owner(j)] == j);
                assert(self.owner(j) == me.owner(j));
            }
        }
        place
    }

    /// The child under key byte `b`.
    pub fn find_child(&self, b: u8) -> (child: Option<&Node<V>>)
        requires
            self.wf(),
        ensures
            child.is_some() == self.child(b).is_some(),
            child.is_some() ==> *child.unwrap() == self.child(b).unwrap(),
    {
        let slot = self.keys[b as usize];
        if slot != EMPTY_SLOT {
            self.children[slot as usize].as_ref()
        } else {
            None
        }
    }

    /// Exclusive access to the child under key byte `b`. What is written
    /// through the reference is the child under `b` afterwards.
    pub fn find_child_mut(&mut self, b: u8) -> (child: Option<&mut Node<V>>)
        requires
            old(self).wf(),
        ensures
            final(self).wf(),
            child.is_some() == old(self).child(b).is_some(),
            child.is_some() ==> *child.unwrap() == old(self).child(b).unwrap(),
            child.is_some() ==> final(self).child(b) == Some(*final(child.unwrap())),
            child.is_none() ==> final(self).child(b).is_none(),
            forall|x: u8| x != b ==> final(self).child(x) == old(self).child(x),
    {
        let slot = self.keys[b as usize];
        if slot != EMPTY_SLOT {
            proof {
                let ghost me = *self;
                assert forall|slots2: Vec<Option<Node<V>>>|
                    slots2@.len() == me.children@.len() && slots2@[slot as int].is_some()
                    && (forall|j: int| 0 <= j < slots2@.len() && j != slot ==> slots2@[j] == me.children@[j])
                    implies (#[trigger] Node48Children::<V> { keys: me.keys, children: slots2 }.wf()) by {
                    let n2 = Node48Children::<V> { keys: me.keys, children: slots2 };
                    assert forall|i: int| 0 <= i < NODE48_CAPACITY && n2.children@[i].is_some() implies 0 <= n2.owner(i) < 256 && n2.keys@[n2.owner(i)] == i by {
                        if i == slot {
                            assert(n2.keys@[b as int] == i);
                        } else {
                            assert(me.keys@[me.owner(i)] == i);
                        }
                    }
                }
            }
            self.children[slot as usize].as_mut()
        } else {
            None
        }
    }

    /// The child with the smallest key byte that is not below `from`.
    pub fn next_child(&self, from: u8) -> (next: Option<(u8, &Node<V>)>)
        requires
            self.wf(),
        ensures
            match next {
                Some((b, child)) => from <= b && self.child(b) == Some(*child)
                    && forall|x: u8| from <= x < b ==> self.child(x).is_none(),
                None => forall|x: u8| from <= x ==> self.child(x).is_none(),
            },
    {
        let mut i: usize = from as usize;
        while i < 256
            invariant
                self.wf(),
                from <= i <= 256,
                forall|x: u8| from <= x < i ==> self.child(x).is_none(),
            decreases 256 - i,
        {
            let slot = self.keys[i];
            if slot != EMPTY_SLOT {
                match &self.children[slot as usize] {
                    Some(child) => {
                        return Some((i as u8, child));
                    },
                    None => {},
                }
            }
            i += 1;
        }
        None
    }

    /// The child with the largest key byte that is not above `upto`.
    pub fn prev_child(&self, upto: u8) -> (prev: Option<(u8, &Node<V>)>)
        requires
            self.wf(),
        ensures
            match prev {
                Some((b, child)) => b <= upto && self.child(b) == Some(*child)
                    && forall|x: u8| b < x <= upto ==> self.child(x).is_none(),
                None => forall|x: u8| x <= upto ==> self.child(x).is_none(),
            },
    {
        let mut i: usize = upto as usize + 1;
        while i > 0
            invariant
                self.wf(),
                i <= upto + 1,
                forall|x: u8| i <= x <= upto ==> self.child(x).is_none(),
            decreases i,
        {
            let slot = self.keys[i - 1];
            if slot != EMPTY_SLOT {
                match &self.children[slot as usize] {
                    Some(child) => {
                        return Some(((i - 1) as u8, child));
                    },
                    None => {},
                }
            }
            i -= 1;
        }
        None
    }

    /// Stores `node` under `b`. A child already there is displaced and
    /// handed back; otherwise the new child takes the first free slot, and
    /// there must be one.
    pub fn set_child(&mut self, b: u8, node: Node<V>) -> (displaced: Option<Node<V>>)
        requires
            old(self).wf(),
            old(self).child(b).is_none() ==> old(self).count() < NODE48_CAPACITY,
        ensures
            final(self).wf(),
            displaced == old(self).child(b),
            final(self).child(b) == Some(node),
            forall|x: u8| x != b ==> final(self).child(x) == old(self).child(x),
            old(self).child(b).is_none() ==> exists|p: int| old(self).is_first_free(p) && #[trigger] final(self).key_at(p) == Some(b),
    {
        let ghost me = *self;
        let slot = self.keys[b as usize];
        if slot != EMPTY_SLOT {
            let mut place = Some(node);
            core::mem::swap(&mut self.children[slot as usize], &mut place);
            proof {
                assert forall|i: int| 0 <= i < NODE48_CAPACITY && self.children@[i].is_some() implies 0 <= self.owner(i) < 256 && self.keys@[self.owner(i)] == i by {
                    if i == slot {
                        assert(self.keys@[b as int] == i);
                    } else {
                        assert(me.keys@[me.owner(i)] == i);
                    }
                }
            }
            place
        } else {
            let mut free: usize = 0;
            while free < NODE48_CAPACITY && self.children[free].is_some()
                invariant
                    *self == me,
                    me.wf(),
                    free <= NODE48_CAPACITY,
                    forall|i: int| 0 <= i < free ==> self.children@[i].is_some(),
                decreases NODE48_CAPACITY - free,
            {
                free += 1;
            }
            proof {
                if free == NODE48_CAPACITY {
                    me.lemma_full();
                }
            }
            self.children[free] = Some(node);
            self.keys[b as usize] = free as u8;
            proof {
                assert forall|x: int| 0 <= x < 256 && x != b implies me.keys@[x] != free by {
                    if me.keys@[x] == free {
                        assert(me.children@[me.keys@[x] as int].is_some());
                    }
                }
                assert forall|i: int| 0 <= i < NODE48_CAPACITY && self.children@[i].is_some() implies 0 <= self.owner(i) < 256 && self.keys@[self.owner(i)] == i by {
                    if i == free {
                        assert(self.keys@[b as int] == i);
                    } else {
                        assert(self.keys@[me.owner(i)] == i);
                    }
                }
                assert(self.keys@[self.owner(free as int)] == free);
                assert(self.owner(free as int) == b);
                assert(me.is_first_free(free as int) && self.key_at(free as int) == Some(b));
            }
            None
        }
    }

    /// Adds `node` as the child under `b`, which has none yet, in the first
    /// free slot. When no slot is free the layout stays as it is and the
    /// node is handed back.
    pub fn insert_child(&mut self, b: u8, node: Node<V>) -> (overflow: Option<Node<V>>)
        requires
            old(self).wf(),
            old(self).child(b).is_none(),
        ensures
            final(self).wf(),
            overflow.is_some() <==> old(self).count() == NODE48_CAPACITY,
            match overflow {
                Some(back) => back == node && forall|x: u8| final(self).child(x) == old(self).child(x),
                None => final(self).child(b) == Some(node) && forall|x: u8| x != b ==> final(self).child(x) == old(self).child(x),
            },
            overflow is None ==> exists|p: int| old(self).is_first_free(p) && #[trigger] final(self).key_at(p) == Some(b),
    {
        let ghost me = *self;
        let mut free: usize = 0;
        while free < NODE48_CAPACITY && self.children[free].is_some()
            invariant
                *self == me,
                me.wf(),
                free <= NODE48_CAPACITY,
                forall|i: int| 0 <= i < free ==> self.children@[i].is_some(),
            decreases NODE48_CAPACITY - free,
        {
            free += 1;
        }
        if free == NODE48_CAPACITY {
            proof {
                me.lemma_full();
            }
            Some(node)
        } else {
            proof {
                me.lemma_not_full(free as int);
            }
            self.set_child(b, node);
            None
        }
    }

    /// Takes the child under `b` out and frees its slot.
    pub fn remove_child(&mut self, b: u8) -> (removed: Option<Node<V>>)
        requires
            old(self).wf(),
        ensures
            final(self).wf(),
            removed == old(self).child(b),
            final(self).child(b).is_none(),
            forall|x: u8| x != b ==> final(self).child(x) == old(self).child(x),
    {
        let ghost me = *self;
        let slot = self.keys[b as usize];
        if slot != EMPTY_SLOT {
            let mut place = None;
            core::mem::swap(&mut self.children[slot as usize], &mut place);
            self.keys[b as usize] = EMPTY_SLOT;
            proof {
                assert forall|i: int| 0 <= i < NODE48_CAPACITY && self.children@[i].is_some() implies 0 <= self.owner(i) < 256 && self.keys@[self.owner(i)] == i by {
                    assert(me.keys@[me.owner(i)] == i);
                    assert(self.keys@[me.owner(i)] == i);
                }
            }
            place
        } else {
            None
        }
    }
}

} // verus!
