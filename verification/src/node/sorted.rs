//! The two small child layouts: parallel arrays of key bytes and children,
//! kept in ascending order of the key byte.

use vstd::prelude::*;
use crate::node::Node;

verus! {

/// Children stored as parallel sequences sorted by key byte, at most `CAP`
/// of them.
pub struct SortedChildren<V, const CAP: usize> {
    keys: Vec<u8>,
    nodes: Vec<Node<V>>,
}

/// `keys` is strictly ascending.
pub open spec fn strictly_ascending(keys: Seq<u8>) -> bool {
    forall|i: int, j: int| 0 <= i < j < keys.len() ==> keys[i] < keys[j]
}

impl<V, const CAP: usize> SortedChildren<V, CAP> {
    /// Both arrays have the same length, no more than the capacity, and the
    /// key bytes are strictly ascending.
    pub closed spec fn wf(self) -> bool {
        &&& self.keys@.len() == self.nodes@.len()
        &&& self.keys@.len() <= CAP
        &&& strictly_ascending(self.keys@)
    }

    /// The child stored under key byte `b`, if there is one.
    pub closed spec fn child(self, b: u8) -> Option<Node<V>> {
        if self.keys@.contains(b) {
            Some(self.nodes@[self.keys@.index_of(b)])
        } else {
            None
        }
    }

    /// The children by key byte.
    pub open spec fn view(self) -> Map<u8, Node<V>> {
        Map::new(|b: u8| self.child(b).is_some(), |b: u8| self.child(b).unwrap())
    }

    /// Number of children.
    pub open spec fn count(self) -> nat {
        self.view().dom().len()
    }

    proof fn lemma_len(self)
        requires
            self.wf(),
        ensures
            self.keys@.len() == self.count(),
    {
        assert(self.keys@.no_duplicates()) by {
            assert forall|i: int, j: int| 0 <= i < self.keys@.len() && 0 <= j < self.keys@.len() && i != j implies self.keys@[i] != self.keys@[j] by {
                if i < j {
                    assert(self.keys@[i] < self.keys@[j]);
                } else {
                    assert(self.keys@[j] < self.keys@[i]);
                }
            }
        }
        self.keys@.unique_seq_to_set();
        assert(self.view().dom() =~= self.keys@.to_set());
    }

    proof fn lemma_child_at(self, i: int)
        requires
            self.wf(),
            0 <= i < self.keys@.len(),
        ensures
            self.keys@.contains(self.keys@[i]),
            self.keys@.index_of(self.keys@[i]) == i,
            self.child(self.keys@[i]) == Some(self.nodes@[i]),
    {
        let b = self.keys@[i];
        let j = self.keys@.index_of(b);
        assert(self.keys@[j] == b);
        if j < i {
            assert(self.keys@[j] < self.keys@[i]);
        } else if i < j {
            assert(self.keys@[i] < self.keys@[j]);
        }
    }

    /// There are never more children than the layout has room for.
    pub proof fn lemma_count_bound(self)
        requires
            self.wf(),
        ensures
            self.count() <= CAP,
    {
        self.lemma_len();
    }

    /// A child is structurally smaller than the container that holds it.
    pub proof fn lemma_child_decreases(self, b: u8)
        requires
            self.wf(),
            self.child(b).is_some(),
        ensures
            decreases_to!(self => self.child(b).unwrap()),
    {
        broadcast use vstd::std_specs::vec::axiom_vec_index_decreases;
        let i = self.keys@.index_of(b);
        assert(0 <= i < self.nodes@.len());
        assert(decreases_to!(self.nodes => self.nodes[i]));
    }

    /// An empty layout.
    pub fn new() -> (children: Self)
        ensures
            children.wf(),
            forall|b: u8| children.child(b).is_none(),
    {
        SortedChildren { keys: Vec::new(), nodes: Vec::new() }
    }

    /// The number of children.
    pub fn len(&self) -> (n: usize)
        requires
            self.wf(),
        ensures
            n == self.count(),
            n <= CAP,
    {
        proof {
            self.lemma_len();
        }
        self.keys.len()
    }

    /// Position of the first key byte that is not below `b`.
    fn lower_bound(&self, b: u8) -> (i: usize)
        requires
            self.wf(),
        ensures
            i <= self.keys@.len(),
            forall|j: int| 0 <= j < i ==> self.keys@[j] < b,
            i < self.keys@.len() ==> self.keys@[i as int] >= b,
    {
        let mut i: usize = 0;
        while i < self.keys.len() && self.keys[i] < b
            invariant
                i <= self.keys@.len(),
                forall|j: int| 0 <= j < i ==> self.keys@[j] < b,
            decreases self.keys@.len() - i,
        {
            i += 1;
        }
        i
    }

    /// The key byte at position `i` of the arrays, if the position is in
    /// use.
    pub closed spec fn key_at(self, i: int) -> Option<u8> {
        if 0 <= i < self.keys@.len() {
            Some(self.keys@[i])
        } else {
            None
        }
    }

    /// Positions enumerate the children in ascending order of key byte:
    /// the positions in use are those below the count, each holds the key
    /// byte of a child, a later one a larger byte, and every child has a
    /// position.
    pub proof fn lemma_positions(self)
        requires
            self.wf(),
        ensures
            forall|i: int| (#[trigger] self.key_at(i)).is_some() <==> 0 <= i < self.count(),
            forall|i: int| (#[trigger] self.key_at(i)).is_some() ==> self.child(self.key_at(i).unwrap()).is_some(),
            forall|i: int, j: int| 0 <= i < j < self.count() ==> (#[trigger] self.key_at(i)).unwrap() < (#[trigger] self.key_at(j)).unwrap(),
            forall|b: u8| #[trigger] self.child(b).is_some() ==> exists|i: int| #[trigger] self.key_at(i) == Some(b),
    {
        self.lemma_len();
        assert forall|i: int| (#[trigger] self.key_at(i)).is_some() implies self.child(self.key_at(i).unwrap()).is_some() by {
            self.lemma_child_at(i);
        }
        assert forall|b: u8| #[trigger] self.child(b).is_some() implies exists|i: int| #[trigger] self.key_at(i) == Some(b) by {
            let i = self.keys@.index_of(b);
            assert(self.key_at(i) == Some(b));
        }
    }

    /// No two positions hold the same key byte.
    pub proof fn lemma_positions_distinct(self, i: int, j: int)
        requires
            self.wf(),
            self.key_at(i).is_some(),
            self.key_at(i) == self.key_at(j),
        ensures
            i == j,
    {
        if i < j {
            assert(self.keys@[i] < self.keys@[j]);
        } else if j < i {
            assert(self.keys@[j] < self.keys@[i]);
        }
    }

    /// Where `b` sits in the arrays, if it is present.
    pub fn find(&self, b: u8) -> (found: Option<usize>)
        requires
            self.wf(),
        ensures
            found.is_some() == self.child(b).is_some(),
            found matches Some(i) ==> self.key_at(i as int) == Some(b),
    {
        let i = self.lower_bound(b);
        if i < self.keys.len() && self.keys[i] == b {
            proof {
                self.lemma_child_at(i as int);
            }
            Some(i)
        } else {
            proof {
                if self.keys@.contains(b) {
                    let j = self.keys@.index_of(b);
                    if j > i {
                        assert(self.keys@[i as int] < self.keys@[j]);
                    }
                }
            }
            None
        }
    }

    /// The child at position `i` of the arrays.
    pub fn child_at(&self, i: usize) -> (child: Option<&Node<V>>)
        requires
            self.wf(),
        ensures
            match child {
                Some(node) => self.key_at(i as int) matches Some(b) && self.child(b) == Some(*node),
                None => self.key_at(i as int).is_none(),
            },
    {
        if i < self.keys.len() {
            proof {
                self.lemma_child_at(i as int);
            }
            Some(&self.nodes[i])
        } else {
            None
        }
    }

    /// Writes `node` over the child at position `i`, which is in use, and
    /// hands back the child that was there.
    pub fn set_child_at(&mut self, i: usize, node: Node<V>) -> (displaced: Option<Node<V>>)
        requires
            old(self).wf(),
            old(self).key_at(i as int).is_some(),
        ensures
            final(self).wf(),
            displaced == old(self).child(old(self).key_at(i as int).unwrap()),
            displaced.is_some(),
            final(self).child(old(self).key_at(i as int).unwrap()) == Some(node),
            forall|x: u8| x != old(self).key_at(i as int).unwrap() ==> final(self).child(x) == old(self).child(x),
            forall|j: int| final(self).key_at(j) == old(self).key_at(j),
    {
        let ghost old_self = *self;
        let mut node = node;
        core::mem::swap(&mut self.nodes[i], &mut node);
        proof {
            old_self.lemma_child_at(i as int);
            self.lemma_child_at(i as int);
            assert forall|x: u8| x != old_self.keys@[i as int] implies self.child(x) == old_self.child(x) by {
                if self.keys@.contains(x) {
                    let j = self.keys@.index_of(x);
                    old_self.lemma_child_at(j);
                    self.lemma_child_at(j);
                }
            }
        }
        Some(node)
    }

    /// The child under key byte `b`.
    pub fn find_child(&self, b: u8) -> (child: Option<&Node<V>>)
        requires
            self.wf(),
        ensures
            child.is_some() == self.child(b).is_some(),
            child.is_some() ==> *child.unwrap() == self.child(b).unwrap(),
    {
        match self.find(b) {
            Some(i) => Some(&self.nodes[i]),
            None => None,
        }
    }

    /// Exclusive access to the child under key byte `b`. What is written
    /// through the reference is the child under `b` afterwards.
    pub fn find_child_mut(&mut self, b: u8) -> (child: Option<&mut Node<V>>)
        requires
            old(self).wf(),
        ensures
            final(self).wf(),
            child.is_some() == old(self).child(b).is_some(),
            child.is_some() ==> *child.unwrap() == old(self).child(b).unwrap(),
            child.is_some() ==> final(self).child(b) == Some(*final(child.unwrap())),
            child.is_none() ==> final(self).child(b).is_none(),
            forall|x: u8| x != b ==> final(self).child(x) == old(self).child(x),
    {
        match self.find(b) {
            Some(i) => {
                proof {
                    let ghost keys = self.keys@;
                    assert forall|nodes2: Vec<Node<V>>, x: u8|
                        nodes2@.len() == self.nodes@.len() && (forall|j: int| 0 <= j < nodes2@.len() && j != i ==> nodes2@[j] == self.nodes@[j])
                        implies (#[trigger] SortedChildren::<V, CAP> { keys: self.keys, nodes: nodes2 }.child(x)) == (if x == b { Some(nodes2@[i as int]) } else { self.child(x) }) by {
                        let s2 = SortedChildren::<V, CAP> { keys: self.keys, nodes: nodes2 };
                        if keys.contains(x) {
                            let j = keys.index_of(x);
                            self.lemma_child_at(j);
                            self.lemma_child_at(i as int);
                        }
                    }
                }
                Some(&mut self.nodes[i])
            },
            None => None,
        }
    }

    /// The child with the smallest key byte that is not below `from`.
    pub fn next_child(&self, from: u8) -> (next: Option<(u8, &Node<V>)>)
        requires
            self.wf(),
        ensures
            match next {
                Some((b, child)) => from <= b && self.child(b) == Some(*child)
                    && forall|x: u8| from <= x < b ==> self.child(x).is_none(),
                None => forall|x: u8| from <= x ==> self.child(x).is_none(),
            },
    {
        let i = self.lower_bound(from);
        proof {
            assert forall|x: u8| from <= x && self.child(x).is_some() implies i < self.keys@.len() && self.keys@[i as int] <= x by {
                let j = self.keys@.index_of(x);
                if j < i {
                    assert(self.keys@[j] < from);
                } else if j > i {
                    assert(self.keys@[i as int] < self.keys@[j]);
                }
            }
        }
        if i < self.keys.len() {
            proof {
                self.lemma_child_at(i as int);
            }
            Some((self.keys[i], &self.nodes[i]))
        } else {
            None
        }
    }

    /// The child with the largest key byte that is not above `upto`.
    pub fn prev_child(&self, upto: u8) -> (prev: Option<(u8, &Node<V>)>)
        requires
            self.wf(),
        ensures
            match prev {
                Some((b, child)) => b <= upto && self.child(b) == Some(*child)
                    && forall|x: u8| b < x <= upto ==> self.child(x).is_none(),
                None => forall|x: u8| x <= upto ==> self.child(x).is_none(),
            },
    {
        let mut i: usize = self.keys.len();
        while i > 0 && self.keys[i - 1] > upto
            invariant
                i <= self.keys@.len(),
                forall|j: int| i <= j < self.keys@.len() ==> self.keys@[j] > upto,
            decreases i,
        {
            i -= 1;
        }
        proof {
            assert forall|x: u8| x <= upto && self.child(x).is_some() implies i > 0 && x <= self.keys@[i - 1] by {
                let j = self.keys@.index_of(x);
                if j >= i {
                    assert(self.keys@[j] > upto);
                } else if j < i - 1 {
                    assert(self.keys@[j] < self.keys@[i - 1]);
                }
            }
        }
        if i > 0 {
            proof {
                self.lemma_child_at(i - 1);
            }
            Some((self.keys[i - 1], &self.nodes[i - 1]))
        } else {
            None
        }
    }

    /// Stores `node` under `b`. A child already there is displaced and
    /// handed back; otherwise the new child is inserted at its place in the
    /// order, for which there must be room.
    pub fn set_child(&mut self, b: u8, node: Node<V>) -> (displaced: Option<Node<V>>)
        requires
            old(self).wf(),
            old(self).child(b).is_none() ==> old(self).count() < CAP,
        ensures
            final(self).wf(),
            displaced == old(self).child(b),
            final(self).child(b) == Some(node),
            forall|x: u8| x != b ==> final(self).child(x) == old(self).child(x),
    {
        let i = self.lower_bound(b);
        let ghost old_self = *self;
        proof {
            self.lemma_len();
        }
        if i < self.keys.len() && self.keys[i] == b {
            let mut node = node;
            core::mem::swap(&mut self.nodes[i], &mut node);
            proof {
                old_self.lemma_child_at(i as int);
                self.lemma_child_at(i as int);
                assert forall|x: u8| x != b implies self.child(x) == old_self.child(x) by {
                    if self.keys@.contains(x) {
                        let j = self.keys@.index_of(x);
                        old_self.lemma_child_at(j);
                        self.lemma_child_at(j);
                    }
                }
            }
            Some(node)
        } else {
            proof {
                if old_self.keys@.contains(b) {
                    let j = old_self.keys@.index_of(b);
                    if j > i {
                        assert(old_self.keys@[i as int] < old_self.keys@[j]);
                    }
                }
            }
            self.keys.insert(i, b);
            self.nodes.insert(i, node);
            proof {
                let ok = old_self.keys@;
                let nk = self.keys@;
                assert(nk.len() == ok.len() + 1);
                assert(nk[i as int] == b);
                assert forall|j: int| 0 <= j < i implies nk[j] == ok[j] && self.nodes@[j] == old_self.nodes@[j] by {}
                assert forall|j: int| i < j < nk.len() implies nk[j] == ok[j - 1] && self.nodes@[j] == old_self.nodes@[j - 1] by {}
                assert(strictly_ascending(nk)) by {
                    assert forall|x: int, y: int| 0 <= x < y < nk.len() implies nk[x] < nk[y] by {
                        if x < i && y > i {
                            assert(ok[x] < b);
                            assert(ok[y - 1] >= ok[i as int]) by {
                                if y - 1 > i {
                                    assert(ok[i as int] < ok[y - 1]);
                                }
                            }
                        } else if x < i && y < i {
                            assert(ok[x] < ok[y]);
                        } else if x > i {
                            assert(ok[x - 1] < ok[y - 1]);
                        } else if x == i {
                            if y - 1 > i {
                                assert(ok[i as int] < ok[y - 1]);
                            }
                        }
                    }
                }
                self.lemma_child_at(i as int);
                assert forall|x: u8| x != b implies self.child(x) == old_self.child(x) by {
                    if nk.contains(x) {
                        let j = nk.index_of(x);
                        self.lemma_child_at(j);
                        if j < i {
                            old_self.lemma_child_at(j);
                        } else {
                            old_self.lemma_child_at(j - 1);
                        }
                    } else if ok.contains(x) {
                        let j = ok.index_of(x);
                        if j < i {
                            assert(nk[j] == x);
                        } else {
                            assert(nk[j + 1] == x);
                        }
                    }
                }
            }
            None
        }
    }

    /// Adds `node` as the child under `b`, which has none yet, at its place
    /// in the order. When there is no room the layout stays as it is and
    /// the node is handed back.
    pub fn insert_child(&mut self, b: u8, node: Node<V>) -> (overflow: Option<Node<V>>)
        requires
            old(self).wf(),
            old(self).child(b).is_none(),
        ensures
            final(self).wf(),
            overflow.is_some() <==> old(self).count() == CAP,
            match overflow {
                Some(back) => back == node && forall|x: u8| final(self).child(x) == old(self).child(x),
                None => final(self).child(b) == Some(node) && forall|x: u8| x != b ==> final(self).child(x) == old(self).child(x),
            },
    {
        proof {
            self.lemma_len();
        }
        if self.keys.len() >= CAP {
            Some(node)
        } else {
            self.set_child(b, node);
            None
        }
    }

    /// Takes the child under `b` out, closing the gap it leaves.
    pub fn remove_child(&mut self, b: u8) -> (removed: Option<Node<V>>)
        requires
            old(self).wf(),
        ensures
            final(self).wf(),
            removed == old(self).child(b),
            final(self).child(b).is_none(),
            forall|x: u8| x != b ==> final(self).child(x) == old(self).child(x),
    {
        let ghost old_self = *self;
        match self.find(b) {
            Some(i) => {
                proof {
                    old_self.lemma_child_at(i as int);
                }
                self.keys.remove(i);
                let node = self.nodes.remove(i);
                proof {
                    let ok = old_self.keys@;
                    let nk = self.keys@;
                    assert forall|j: int| 0 <= j < i implies nk[j] == ok[j] && self.nodes@[j] == old_self.nodes@[j] by {}
                    assert forall|j: int| i <= j < nk.len() implies nk[j] == ok[j + 1] && self.nodes@[j] == old_self.nodes@[j + 1] by {}
                    assert(strictly_ascending(nk)) by {
                        assert forall|x: int, y: int| 0 <= x < y < nk.len() implies nk[x] < nk[y] by {
                            let ox = if x < i { x } else { x + 1 };
                            let oy = if y < i { y } else { y + 1 };
                            assert(ok[ox] < ok[oy]);
                        }
                    }
                    assert(!nk.contains(b)) by {
                        if nk.contains(b) {
                            let j = nk.index_of(b);
                            let oj = if j < i { j } else { j + 1 };
                            old_self.lemma_child_at(oj);
                        }
                    }
                    assert forall|x: u8| x != b implies self.child(x) == old_self.child(x) by {
                        if nk.contains(x) {
                            let j = nk.index_of(x);
                            self.lemma_child_at(j);
                            let oj = if j < i { j } else { j + 1 };
                            old_self.lemma_child_at(oj);
                        } else if ok.contains(x) {
                            let j = ok.index_of(x);
                            if j < i {
                                assert(nk[j] == x);
                            } else {
                                assert(nk[j - 1] == x);
                            }
                        }
                    }
                }
                Some(node)
            },
            None => None,
        }
    }
}

} // verus!
