//! Walking the tree in the order of its keys.

use vstd::prelude::*;
use vstd::pervasive::unreached;
use crate::node::base::{lemma_common_len_decides_match, lemma_match_extends_path, prefix_match, PrefixMatchResult};
use crate::node::internal::InternalNode;
use crate::node::leaf::LeafNode;
use crate::node::{LeafNodeRef, Node, NodeRef};
use crate::order::{
    key_lt, lemma_before_extension, lemma_before_larger_branch, lemma_before_later_branch, lemma_before_longer, lemma_before_path,
    lemma_lex_lt_asymmetric, lemma_lex_lt_irreflexive, lex_lt, lex_lt_at, strictly_sorted,
};
use crate::shape::{lemma_key_routes, lemma_keys_extend_prefix, lemma_lookup_at_leaf_slot, lemma_lookup_through_child, lemma_some_child};
use crate::util::{common_len_at, is_common_len, suffix, to_vec};

verus! {

/// The byte strings that a sequence of vectors holds.
pub open spec fn key_views(keys: Seq<Vec<u8>>) -> Seq<Seq<u8>> {
    Seq::new(keys.len(), |i: int| keys[i]@)
}

/// `out` is `start` followed by keys of `node` only.
pub open spec fn extends_with_keys<V>(node: Node<V>, depth: int, start: Seq<Vec<u8>>, out: Seq<Vec<u8>>) -> bool {
    &&& start.len() <= out.len()
    &&& forall|i: int| 0 <= i < start.len() ==> out[i] == start[i]
    &&& forall|i: int| start.len() <= i < out.len() ==> node.lookup(#[trigger] out[i]@, depth).is_some()
}

/// `out` holds, after its first `skip` places, the key `key`.
pub open spec fn listed(out: Seq<Vec<u8>>, skip: int, key: Seq<u8>) -> bool {
    exists|i: int| skip <= i < out.len() && #[trigger] out[i]@ == key
}

impl<V> Node<V> {
    /// Appends the keys of this subtree to `out` in ascending order.
    ///
    /// An internal node's own key comes first, then the keys below its
    /// children in the order of their key bytes.
    pub(crate) fn collect_keys(&self, out: &mut Vec<Vec<u8>>, path: Ghost<Seq<u8>>)
        requires
            self.wf(path@),
            strictly_sorted(key_views(old(out)@)),
            forall|i: int| 0 <= i < old(out)@.len() ==> lex_lt(#[trigger] old(out)@[i]@, path@),
        ensures
            extends_with_keys(*self, path@.len() as int, old(out)@, final(out)@),
            strictly_sorted(key_views(final(out)@)),
            forall|k: Seq<u8>| self.lookup(k, path@.len() as int).is_some() ==> listed(final(out)@, old(out)@.len() as int, k),
        decreases *self,
    {
        let ghost start = out@;
        let ghost d = path@.len() as int;
        match self {
            Node::Leaf(leaf) => {
                let key = to_vec(leaf.key_ref().as_slice());
                out.push(key);
                proof {
                    assert(out@[start.len() as int]@ == leaf.key_spec());
                    assert forall|i: int, j: int| 0 <= i < j < out@.len() implies lex_lt(#[trigger] key_views(out@)[i], #[trigger] key_views(out@)[j]) by {
                        if j < start.len() {
                            assert(lex_lt(key_views(start)[i], key_views(start)[j]));
                        } else {
                            lemma_before_path(start[i]@, path@, leaf.key_spec());
                        }
                    }
                }
            },
            Node::Internal(inner) => {
                let ghost below = path@ + inner.prefix();
                proof {
                    assert(path@ =~= below.subrange(0, d));
                }
                match inner.get_leaf() {
                    Some(leaf) => {
                        let key = to_vec(leaf.key_ref().as_slice());
                        out.push(key);
                        proof {
                            lemma_lookup_at_leaf_slot(**inner, path@);
                            assert(out@[start.len() as int]@ == below);
                            assert forall|i: int, j: int| 0 <= i < j < out@.len() implies lex_lt(#[trigger] key_views(out@)[i], #[trigger] key_views(out@)[j]) by {
                                if j < start.len() {
                                    assert(lex_lt(key_views(start)[i], key_views(start)[j]));
                                } else {
                                    lemma_before_path(start[i]@, path@, below);
                                }
                            }
                        }
                    },
                    None => {},
                }
                proof {
                    assert forall|i: int| 0 <= i < out@.len() implies lex_lt(#[trigger] out@[i]@, below.push(0u8)) by {
                        if i < start.len() {
                            assert(path@ =~= below.push(0u8).subrange(0, d));
                            lemma_before_path(start[i]@, path@, below.push(0u8));
                        } else {
                            lemma_before_extension(below, 0u8);
                        }
                    }
                    assert forall|k: Seq<u8>| self.lookup(k, d).is_some() && k.len() == below.len() implies listed(out@, start.len() as int, k) by {
                        lemma_keys_extend_prefix(*self, path@, k);
                        assert(k =~= below);
                        lemma_lookup_at_leaf_slot(**inner, path@);
                        assert(out@[start.len() as int]@ == k);
                    }
                }
                let mut from: usize = 0;
                while from < 256
                    invariant
                        from <= 256,
                        *self == Node::Internal(*inner),
                        self.wf(path@),
                        below == path@ + inner.prefix(),
                        d == path@.len(),
                        extends_with_keys(*self, d, start, out@),
                        strictly_sorted(key_views(out@)),
                        from < 256 ==> forall|i: int| 0 <= i < out@.len() ==> lex_lt(#[trigger] out@[i]@, below.push(from as u8)),
                        forall|k: Seq<u8>| self.lookup(k, d).is_some() && (k.len() == below.len() || (k.len() > below.len() && k[below.len() as int] < from))
                            ==> listed(out@, start.len() as int, k),
                    decreases 256 - from,
                {
                    let ghost before = out@;
                    let ghost old_from = from;
                    match inner.next_child(from as u8) {
                        Some((b, child)) => {
                            proof {
                                inner.lemma_child_decreases(b);
                                assert forall|i: int| 0 <= i < out@.len() implies lex_lt(#[trigger] out@[i]@, below.push(b)) by {
                                    lemma_before_larger_branch(out@[i]@, below, from as u8, b);
                                }
                            }
                            child.collect_keys(out, Ghost(below.push(b)));
                            proof {
                                let under = below.push(b);
                                assert forall|i: int| before.len() <= i < out@.len() implies self.lookup(#[trigger] out@[i]@, d).is_some() && under.is_prefix_of(out@[i]@) by {
                                    child.lemma_keys_extend_path(under, out@[i]@);
                                    lemma_lookup_through_child(**inner, path@, b, out@[i]@);
                                }
                                assert forall|k: Seq<u8>| self.lookup(k, d).is_some() && (k.len() == below.len() || (k.len() > below.len() && k[below.len() as int] <= b))
                                    implies listed(out@, start.len() as int, k) by {
                                    lemma_keys_extend_prefix(*self, path@, k);
                                    if k.len() == below.len() || k[below.len() as int] < old_from {
                                        assert(listed(before, start.len() as int, k));
                                        let i = choose|i: int| start.len() <= i < before.len() && #[trigger] before[i]@ == k;
                                        assert(out@[i]@ == k);
                                    } else {
                                        let x = k[below.len() as int];
                                        assert(below.push(x).is_prefix_of(k)) by {
                                            assert(below.push(x) =~= k.subrange(0, (below.len() + 1) as int));
                                        }
                                        lemma_lookup_through_child(**inner, path@, x, k);
                                        assert(x == b);
                                        assert(listed(out@, before.len() as int, k));
                                        let i = choose|i: int| before.len() <= i < out@.len() && #[trigger] out@[i]@ == k;
                                        assert(out@[i]@ == k);
                                    }
                                }
                                if b < 255 {
                                    assert forall|i: int| 0 <= i < out@.len() implies lex_lt(#[trigger] out@[i]@, below.push((b + 1) as u8)) by {
                                        if i < before.len() {
                                            assert(out@[i] == before[i]);
                                            lemma_before_larger_branch(out@[i]@, below, b, (b + 1) as u8);
                                        } else {
                                            lemma_before_later_branch(out@[i]@, below, b, (b + 1) as u8);
                                        }
                                    }
                                }
                            }
                            from = b as usize + 1;
                        },
                        None => {
                            proof {
                                assert forall|k: Seq<u8>| self.lookup(k, d).is_some() && k.len() > below.len() implies k[below.len() as int] < old_from by {
                                    lemma_keys_extend_prefix(*self, path@, k);
                                    let x = k[below.len() as int];
                                    assert(below.push(x).is_prefix_of(k)) by {
                                        assert(below.push(x) =~= k.subrange(0, (below.len() + 1) as int));
                                    }
                                    lemma_lookup_through_child(**inner, path@, x, k);
                                }
                            }
                            from = 256;
                        },
                    }
                }
                proof {
                    assert forall|k: Seq<u8>| self.lookup(k, d).is_some() implies listed(out@, start.len() as int, k) by {
                        lemma_keys_extend_prefix(*self, path@, k);
                    }
                }
            },
        }
    }
}

/// `n`, or the largest `usize` when `n` is larger than that.
pub open spec fn saturated(n: nat) -> usize {
    if n <= usize::MAX {
        n as usize
    } else {
        usize::MAX
    }
}

/// Key bytes that have no child add nothing to the number of nodes below a
/// node.
pub proof fn lemma_children_node_count_skip<V>(inner: InternalNode<V>, from: int, to: int)
    requires
        0 <= from <= to <= 256,
        forall|x: u8| from <= x < to ==> inner.child(x).is_none(),
    ensures
        Node::children_node_count(inner, from) == Node::children_node_count(inner, to),
    decreases to - from,
{
    if from < to {
        assert(inner.child(from as u8).is_none());
        lemma_children_node_count_skip(inner, from + 1, to);
    }
}

impl<V> Node<V> {
    /// The number of nodes of this subtree, or the largest `usize` when
    /// there are more.
    pub(crate) fn count_nodes(&self, path: Ghost<Seq<u8>>) -> (n: usize)
        requires
            self.wf(path@),
        ensures
            n == saturated(self.node_count()),
        decreases *self,
    {
        match self {
            Node::Leaf(_) => 1,
            Node::Internal(inner) => {
                let mut n: usize = if inner.get_leaf().is_some() {
                    2
                } else {
                    1
                };
                let ghost head: nat = n as nat;
                let ghost all = Self::children_node_count(**inner, 0);
                let mut from: usize = 0;
                while from < 256
                    invariant
                        from <= 256,
                        *self == Node::Internal(*inner),
                        self.wf(path@),
                        all == Self::children_node_count(**inner, 0),
                        all >= Self::children_node_count(**inner, from as int),
                        n == saturated((head + all - Self::children_node_count(**inner, from as int)) as nat),
                    decreases 256 - from,
                {
                    match inner.next_child(from as u8) {
                        Some((b, child)) => {
                            proof {
                                inner.lemma_child_decreases(b);
                                lemma_children_node_count_skip(**inner, from as int, b as int);
                            }
                            let below = child.count_nodes(Ghost((path@ + inner.prefix()).push(b)));
                            n = n.saturating_add(below);
                            from = b as usize + 1;
                        },
                        None => {
                            proof {
                                lemma_children_node_count_skip(**inner, from as int, 256);
                            }
                            from = 256;
                        },
                    }
                }
                n
            },
        }
    }
}

/// A search key and the number of its bytes that the search has used up.
#[derive(Clone, Copy)]
pub struct SearchArgument<'a> {
    pub key: &'a [u8],
    pub depth: usize,
}

impl<'a> SearchArgument<'a> {
    /// What is left of the key below the depth: empty when the key has been
    /// used up.
    pub fn partial_key(&self) -> (rest: &'a [u8])
        ensures
            rest@ == suffix(self.key@, self.depth as int),
    {
        let len = self.key.len();
        if self.depth >= len {
            let rest = vstd::slice::slice_subrange(self.key, len, len);
            assert(rest@ =~= suffix(self.key@, self.depth as int));
            rest
        } else {
            let rest = vstd::slice::slice_subrange(self.key, self.depth, len);
            assert(rest@ =~= suffix(self.key@, self.depth as int));
            rest
        }
    }

    /// The number of key bytes that the search has used up.
    pub fn depth(&self) -> (depth: usize)
        ensures
            depth == self.depth,
    {
        self.depth
    }
}

/// `leaf` holds the smallest key of `node`.
pub open spec fn is_minimum<V>(node: Node<V>, depth: int, leaf: LeafNode<V>) -> bool {
    &&& node.lookup(leaf.key_spec(), depth) == Some(leaf.value_spec())
    &&& forall|k: Seq<u8>| node.lookup(k, depth).is_some() ==> k == leaf.key_spec() || lex_lt(leaf.key_spec(), k)
}

/// `found` is the lower bound of `key` in `node`: the leaf with the
/// smallest key that does not come before `key`, or nothing when every key
/// of the node comes before `key`.
pub open spec fn is_lower_bound<V>(node: Node<V>, depth: int, key: Seq<u8>, found: Option<LeafNode<V>>) -> bool {
    match found {
        Some(leaf) => {
            &&& node.lookup(leaf.key_spec(), depth) == Some(leaf.value_spec())
            &&& !lex_lt(leaf.key_spec(), key)
            &&& forall|k: Seq<u8>| node.lookup(k, depth).is_some() && !lex_lt(k, key) ==> k == leaf.key_spec() || lex_lt(leaf.key_spec(), k)
        },
        None => forall|k: Seq<u8>| node.lookup(k, depth).is_some() ==> lex_lt(k, key),
    }
}

/// The smallest key of a child is the smallest key of what the children
/// from its key byte on hold.
pub proof fn lemma_minimum_from_child<V>(node: Node<V>, path: Seq<u8>, b: u8, least: Seq<u8>, k: Seq<u8>)
    requires
        node is Internal,
        node.wf(path),
        node->Internal_0.child(b).is_some(),
        (path + node->Internal_0.prefix()).push(b).is_prefix_of(least),
        forall|other: Seq<u8>| (#[trigger] node->Internal_0.child(b).unwrap().lookup(other, (path.len() + node->Internal_0.prefix().len() + 1) as int)).is_some()
            ==> other == least || lex_lt(least, other),
        node.lookup(k, path.len() as int).is_some(),
        k.len() > (path + node->Internal_0.prefix()).len(),
        k[(path + node->Internal_0.prefix()).len() as int] >= b,
    ensures
        k == least || lex_lt(least, k),
{
    let inner = node->Internal_0;
    let below = path + inner.prefix();
    lemma_key_routes(node, path, k);
    let x = k[below.len() as int];
    if x == b {
        assert(inner.child(b).unwrap().lookup(k, (path.len() + inner.prefix().len() + 1) as int).is_some());
    } else {
        lemma_before_later_branch(least, below, b, x);
        lemma_before_path(least, below.push(x), k);
    }
}

/// A key that parts from a node's path at a smaller byte, or ends on the
/// path, comes before every key of the node.
pub proof fn lemma_key_before_subtree<V>(node: Node<V>, key: Seq<u8>, depth: int, c: int, k: Seq<u8>)
    requires
        node is Internal,
        0 <= depth <= key.len(),
        node.wf(key.take(depth)),
        is_common_len(node->Internal_0.prefix(), key.skip(depth), c),
        c < node->Internal_0.prefix().len(),
        depth + c == key.len() || key[depth + c] < node->Internal_0.prefix()[c],
        node.lookup(k, depth).is_some(),
    ensures
        lex_lt(key, k),
{
    let pp = node->Internal_0.prefix();
    let path = key.take(depth);
    let below = path + pp;
    lemma_keys_extend_prefix(node, path, k);
    let n = depth + c;
    assert(key.take(n) =~= k.take(n)) by {
        assert forall|i: int| 0 <= i < n implies key[i] == k[i] by {
            assert(below[i] == k.subrange(0, below.len() as int)[i]);
            if i >= depth {
                assert(pp.take(c)[i - depth] == key.skip(depth).take(c)[i - depth]);
            }
        }
    }
    assert(k[n] == pp[c]) by {
        assert(below[n] == k.subrange(0, below.len() as int)[n]);
    }
    if n < key.len() {
        assert(key.skip(depth)[c] == key[n]);
    }
    assert(lex_lt_at(key, k, n));
}

/// A key that parts from a node's path at a larger byte comes after every
/// key of the node.
pub proof fn lemma_key_after_subtree<V>(node: Node<V>, key: Seq<u8>, depth: int, c: int, k: Seq<u8>)
    requires
        node is Internal,
        0 <= depth <= key.len(),
        node.wf(key.take(depth)),
        is_common_len(node->Internal_0.prefix(), key.skip(depth), c),
        c < node->Internal_0.prefix().len(),
        depth + c < key.len(),
        key[depth + c] > node->Internal_0.prefix()[c],
        node.lookup(k, depth).is_some(),
    ensures
        lex_lt(k, key),
{
    let pp = node->Internal_0.prefix();
    let path = key.take(depth);
    let below = path + pp;
    lemma_keys_extend_prefix(node, path, k);
    let n = depth + c;
    assert(key.take(n) =~= k.take(n)) by {
        assert forall|i: int| 0 <= i < n implies key[i] == k[i] by {
            assert(below[i] == k.subrange(0, below.len() as int)[i]);
            if i >= depth {
                assert(pp.take(c)[i - depth] == key.skip(depth).take(c)[i - depth]);
            }
        }
    }
    assert(k[n] == pp[c]) by {
        assert(below[n] == k.subrange(0, below.len() as int)[n]);
    }
    assert(key.skip(depth)[c] == key[n]);
    assert(lex_lt_at(k, key, n));
}

/// `leaf` holds the largest key of `node`.
pub open spec fn is_maximum<V>(node: Node<V>, depth: int, leaf: LeafNode<V>) -> bool {
    &&& node.lookup(leaf.key_spec(), depth) == Some(leaf.value_spec())
    &&& forall|k: Seq<u8>| node.lookup(k, depth).is_some() ==> k == leaf.key_spec() || lex_lt(k, leaf.key_spec())
}

/// `found` is the upper bound of `key` in `node`: the leaf with the largest
/// key that does not come after `key`, or nothing when every key of the
/// node comes after `key`.
pub open spec fn is_upper_bound<V>(node: Node<V>, depth: int, key: Seq<u8>, found: Option<LeafNode<V>>) -> bool {
    match found {
        Some(leaf) => {
            &&& node.lookup(leaf.key_spec(), depth) == Some(leaf.value_spec())
            &&& !lex_lt(key, leaf.key_spec())
            &&& forall|k: Seq<u8>| node.lookup(k, depth).is_some() && !lex_lt(key, k) ==> k == leaf.key_spec() || lex_lt(k, leaf.key_spec())
        },
        None => forall|k: Seq<u8>| node.lookup(k, depth).is_some() ==> lex_lt(key, k),
    }
}

/// The largest key of a child is the largest key of what the leaf slot and
/// the children up to its key byte hold.
pub proof fn lemma_maximum_from_child<V>(node: Node<V>, path: Seq<u8>, b: u8, greatest: Seq<u8>, k: Seq<u8>)
    requires
        node is Internal,
        node.wf(path),
        node->Internal_0.child(b).is_some(),
        (path + node->Internal_0.prefix()).push(b).is_prefix_of(greatest),
        forall|other: Seq<u8>| (#[trigger] node->Internal_0.child(b).unwrap().lookup(other, (path.len() + node->Internal_0.prefix().len() + 1) as int)).is_some()
            ==> other == greatest || lex_lt(other, greatest),
        node.lookup(k, path.len() as int).is_some(),
        k.len() > (path + node->Internal_0.prefix()).len() ==> k[(path + node->Internal_0.prefix()).len() as int] <= b,
    ensures
        k == greatest || lex_lt(k, greatest),
{
    let inner = node->Internal_0;
    let below = path + inner.prefix();
    lemma_key_routes(node, path, k);
    if k.len() == below.len() {
        assert(below =~= greatest.subrange(0, (below.len() + 1) as int).subrange(0, below.len() as int));
        lemma_before_longer(k, greatest);
    } else {
        let x = k[below.len() as int];
        if x == b {
            assert(inner.child(b).unwrap().lookup(k, (path.len() + inner.prefix().len() + 1) as int).is_some());
        } else {
            lemma_before_later_branch(k, below, x, b);
            lemma_before_path(k, below.push(b), greatest);
        }
    }
}

/// What the search for a bound does at an internal node.
pub enum BoundSearch<'a, V> {
    /// No key of the node can be the bound: they all lie on the wrong side
    /// of the search key.
    GoUp,
    /// The bound is this leaf of the node.
    Found(&'a LeafNode<V>),
    /// The search key follows the node's prefix and goes on at this depth:
    /// the bound is to be looked for among the children.
    GoDown(usize),
}

impl<V> Node<V> {
    /// The leaf with the smallest key of this subtree: an internal node's
    /// own leaf, or else the smallest leaf below its first child.
    pub(crate) fn minimum_leaf(&self, path: Ghost<Seq<u8>>) -> (leaf: &LeafNode<V>)
        requires
            self.wf(path@),
        ensures
            is_minimum(*self, path@.len() as int, *leaf),
            path@.is_prefix_of(leaf.key_spec()),
        decreases *self,
    {
        let ghost d = path@.len() as int;
        match self {
            Node::Leaf(leaf) => &**leaf,
            Node::Internal(inner) => {
                let ghost below = path@ + inner.prefix();
                proof {
                    assert(path@ =~= below.subrange(0, d));
                }
                match inner.get_leaf() {
                    Some(leaf) => {
                        proof {
                            lemma_lookup_at_leaf_slot(**inner, path@);
                            assert forall|k: Seq<u8>| self.lookup(k, d).is_some() implies k == leaf.key_spec() || lex_lt(leaf.key_spec(), k) by {
                                lemma_keys_extend_prefix(*self, path@, k);
                                if k != below {
                                    lemma_before_longer(below, k);
                                }
                            }
                        }
                        leaf
                    },
                    None => {
                        proof {
                            lemma_some_child(**inner);
                        }
                        match inner.next_child(0) {
                            Some((b, child)) => {
                                proof {
                                    inner.lemma_child_decreases(b);
                                }
                                let leaf = child.minimum_leaf(Ghost(below.push(b)));
                                proof {
                                    let least = leaf.key_spec();
                                    lemma_lookup_through_child(**inner, path@, b, least);
                                    assert(path@.is_prefix_of(least)) by {
                                        assert(path@ =~= least.subrange(0, (below.len() + 1) as int).subrange(0, d));
                                    }
                                    assert forall|k: Seq<u8>| self.lookup(k, d).is_some() implies k == least || lex_lt(least, k) by {
                                        lemma_key_routes(*self, path@, k);
                                        lemma_minimum_from_child(*self, path@, b, least, k);
                                    }
                                }
                                leaf
                            },
                            None => unreached(),
                        }
                    },
                }
            },
        }
    }

    /// The leaf with the largest key of this subtree: the largest leaf
    /// below an internal node's last child.
    pub(crate) fn maximum_leaf(&self, path: Ghost<Seq<u8>>) -> (leaf: &LeafNode<V>)
        requires
            self.wf(path@),
        ensures
            is_maximum(*self, path@.len() as int, *leaf),
            path@.is_prefix_of(leaf.key_spec()),
        decreases *self,
    {
        let ghost d = path@.len() as int;
        match self {
            Node::Leaf(leaf) => &**leaf,
            Node::Internal(inner) => {
                let ghost below = path@ + inner.prefix();
                proof {
                    lemma_some_child(**inner);
                }
                match inner.prev_child(255) {
                    Some((b, child)) => {
                        proof {
                            inner.lemma_child_decreases(b);
                        }
                        let leaf = child.maximum_leaf(Ghost(below.push(b)));
                        proof {
                            let greatest = leaf.key_spec();
                            lemma_lookup_through_child(**inner, path@, b, greatest);
                            assert(path@.is_prefix_of(greatest)) by {
                                assert(path@ =~= greatest.subrange(0, (below.len() + 1) as int).subrange(0, d));
                            }
                            assert forall|k: Seq<u8>| self.lookup(k, d).is_some() implies k == greatest || lex_lt(k, greatest) by {
                                lemma_key_routes(*self, path@, k);
                                lemma_maximum_from_child(*self, path@, b, greatest, k);
                            }
                        }
                        leaf
                    },
                    None => unreached(),
                }
            },
        }
    }

    /// The step of the search for the lower bound of `key` at this internal
    /// node, to which the first `depth` bytes of the key lead.
    ///
    /// A key that leaves the node's prefix with a larger byte comes after
    /// every key of the node: the search goes up. A key that leaves it with
    /// a smaller byte, or ends on it, has the node's smallest leaf as its
    /// bound. A key that follows the whole prefix and goes on sends the
    /// search down.
    pub fn search_lower_bound(&self, key: &[u8], depth: usize) -> (step: BoundSearch<'_, V>)
        requires
            *self is Internal,
            depth <= key@.len(),
            self.wf(key@.take(depth as int)),
        ensures
            match step {
                BoundSearch::GoUp => prefix_match(self->Internal_0.prefix(), key@.skip(depth as int)) == PrefixMatchResult::Fail
                    && is_lower_bound(*self, depth as int, key@, None),
                BoundSearch::Found(leaf) => prefix_match(self->Internal_0.prefix(), key@.skip(depth as int)) != PrefixMatchResult::Extra
                    && is_minimum(*self, depth as int, *leaf) && is_lower_bound(*self, depth as int, key@, Some(*leaf)),
                BoundSearch::GoDown(at) => prefix_match(self->Internal_0.prefix(), key@.skip(depth as int)) == PrefixMatchResult::Extra
                    && at == depth + self->Internal_0.prefix().len(),
            },
    {
        let ghost path = key@.take(depth as int);
        let ghost d = depth as int;
        let key_len: usize = key.len();
        match self {
            Node::Leaf(_) => unreached(),
            Node::Internal(inner) => {
                let ghost pp = inner.prefix();
                let prefix = inner.partial_key();
                let common = common_len_at(prefix, 0, key, depth);
                proof {
                    assert(pp.skip(0) =~= pp);
                    lemma_common_len_decides_match(pp, key@.skip(d), common as int);
                }
                if common < prefix.len() {
                    if depth + common == key_len || key[depth + common] < prefix[common] {
                        let leaf = self.minimum_leaf(Ghost(path));
                        proof {
                            lemma_key_before_subtree(*self, key@, d, common as int, leaf.key_spec());
                            lemma_lex_lt_asymmetric(key@, leaf.key_spec());
                        }
                        BoundSearch::Found(leaf)
                    } else {
                        proof {
                            assert(key@.skip(d)[common as int] == key@[d + common]);
                            assert forall|k: Seq<u8>| self.lookup(k, d).is_some() implies lex_lt(k, key@) by {
                                lemma_key_after_subtree(*self, key@, d, common as int, k);
                            }
                        }
                        BoundSearch::GoUp
                    }
                } else {
                    proof {
                        lemma_match_extends_path(pp, key@, d);
                    }
                    let at: usize = depth + prefix.len();
                    if at == key_len {
                        let leaf = self.minimum_leaf(Ghost(path));
                        proof {
                            assert(key@ =~= key@.take(at as int));
                            if leaf.key_spec() != key@ {
                                lemma_keys_extend_prefix(*self, path, leaf.key_spec());
                                lemma_before_longer(key@, leaf.key_spec());
                                lemma_lex_lt_asymmetric(key@, leaf.key_spec());
                            } else {
                                lemma_lex_lt_irreflexive(key@);
                            }
                        }
                        BoundSearch::Found(leaf)
                    } else {
                        BoundSearch::GoDown(at)
                    }
                }
            },
        }
    }

    /// The step of the search for the upper bound of `key` at this internal
    /// node, to which the first `depth` bytes of the key lead.
    ///
    /// A key that leaves the node's prefix with a smaller byte, or ends
    /// inside it, comes before every key of the node: the search goes up. A
    /// key that leaves it with a larger byte has the node's largest leaf as
    /// its bound. A key that ends with the prefix has the node's own leaf as
    /// its bound, if there is one. A key that follows the whole prefix and
    /// goes on sends the search down.
    pub fn search_upper_bound(&self, key: &[u8], depth: usize) -> (step: BoundSearch<'_, V>)
        requires
            *self is Internal,
            depth <= key@.len(),
            self.wf(key@.take(depth as int)),
        ensures
            match step {
                BoundSearch::GoUp => prefix_match(self->Internal_0.prefix(), key@.skip(depth as int)) != PrefixMatchResult::Extra
                    && is_upper_bound(*self, depth as int, key@, None),
                BoundSearch::Found(leaf) => prefix_match(self->Internal_0.prefix(), key@.skip(depth as int)) != PrefixMatchResult::Extra
                    && is_upper_bound(*self, depth as int, key@, Some(*leaf)),
                BoundSearch::GoDown(at) => prefix_match(self->Internal_0.prefix(), key@.skip(depth as int)) == PrefixMatchResult::Extra
                    && at == depth + self->Internal_0.prefix().len(),
            },
    {
        let ghost path = key@.take(depth as int);
        let ghost d = depth as int;
        let key_len: usize = key.len();
        match self {
            Node::Leaf(_) => unreached(),
            Node::Internal(inner) => {
                let ghost pp = inner.prefix();
                let ghost below = path + pp;
                let prefix = inner.partial_key();
                let common = common_len_at(prefix, 0, key, depth);
                proof {
                    assert(pp.skip(0) =~= pp);
                    lemma_common_len_decides_match(pp, key@.skip(d), common as int);
                }
                if common < prefix.len() {
                    if depth + common == key_len || key[depth + common] < prefix[common] {
                        proof {
                            assert forall|k: Seq<u8>| self.lookup(k, d).is_some() implies lex_lt(key@, k) by {
                                lemma_key_before_subtree(*self, key@, d, common as int, k);
                            }
                        }
                        BoundSearch::GoUp
                    } else {
                        let leaf = self.maximum_leaf(Ghost(path));
                        proof {
                            assert(key@.skip(d)[common as int] == key@[d + common]);
                            lemma_key_after_subtree(*self, key@, d, common as int, leaf.key_spec());
                            lemma_lex_lt_asymmetric(leaf.key_spec(), key@);
                        }
                        BoundSearch::Found(leaf)
                    }
                } else {
                    proof {
                        lemma_match_extends_path(pp, key@, d);
                    }
                    let at: usize = depth + prefix.len();
                    if at == key_len {
                        proof {
                            assert(key@ =~= below);
                            lemma_lookup_at_leaf_slot(**inner, path);
                            lemma_lex_lt_irreflexive(key@);
                            assert forall|k: Seq<u8>| self.lookup(k, d).is_some() && k != key@ implies lex_lt(key@, k) by {
                                lemma_keys_extend_prefix(*self, path, k);
                                lemma_before_longer(key@, k);
                            }
                        }
                        match inner.get_leaf() {
                            Some(leaf) => BoundSearch::Found(leaf),
                            None => BoundSearch::GoUp,
                        }
                    } else {
                        BoundSearch::GoDown(at)
                    }
                }
            },
        }
    }

    /// The lower bound of `key` in this subtree, to which the first `depth`
    /// bytes of the key lead: the leaf with the smallest key that does not
    /// come before `key`.
    pub fn find_lower_bound_node(&self, key: &[u8], depth: usize) -> (found: Option<&LeafNode<V>>)
        requires
            depth <= key@.len(),
            self.wf(key@.take(depth as int)),
        ensures
            is_lower_bound(*self, depth as int, key@, match found {
                Some(leaf) => Some(*leaf),
                None => None,
            }),
        decreases *self,
    {
        let ghost path = key@.take(depth as int);
        let ghost d = depth as int;
        let key_len: usize = key.len();
        match self {
            Node::Leaf(leaf) => {
                if key_lt(leaf.key_ref().as_slice(), key) {
                    None
                } else {
                    Some(&**leaf)
                }
            },
            Node::Internal(inner) => {
                let ghost pp = inner.prefix();
                let ghost below = path + pp;
                match self.search_lower_bound(key, depth) {
                    BoundSearch::GoUp => None,
                    BoundSearch::Found(leaf) => Some(leaf),
                    BoundSearch::GoDown(at) => {
                        proof {
                            lemma_match_extends_path(pp, key@, d);
                        }
                        let b = key[at];
                        let ghost under = below.push(b);
                        let inside: Option<&LeafNode<V>> = match inner.find_child(b) {
                            Some(child) => {
                                proof {
                                    inner.lemma_child_decreases(b);
                                }
                                child.find_lower_bound_node(key, at + 1)
                            },
                            None => None,
                        };
                        match inside {
                            Some(leaf) => {
                                proof {
                                    let child = inner.child(b).unwrap();
                                    let least = leaf.key_spec();
                                    child.lemma_keys_extend_path(under, least);
                                    lemma_lookup_through_child(**inner, path, b, least);
                                    assert forall|k: Seq<u8>| self.lookup(k, d).is_some() && !lex_lt(k, key@) implies k == least || lex_lt(least, k) by {
                                        lemma_key_routes(*self, path, k);
                                        if k.len() == below.len() {
                                            lemma_before_longer(k, key@);
                                        } else {
                                            let x = k[below.len() as int];
                                            if x < b {
                                                lemma_before_later_branch(k, below, x, b);
                                                lemma_before_path(k, under, key@);
                                            } else if x > b {
                                                lemma_before_later_branch(least, below, b, x);
                                                lemma_before_path(least, below.push(x), k);
                                            }
                                        }
                                    }
                                }
                                Some(leaf)
                            },
                            None => {
                                proof {
                                    assert forall|k: Seq<u8>| self.lookup(k, d).is_some() && (k.len() == below.len() || k[below.len() as int] <= b)
                                        implies lex_lt(k, key@) by {
                                        lemma_key_routes(*self, path, k);
                                        if k.len() == below.len() {
                                            lemma_before_longer(k, key@);
                                        } else {
                                            let x = k[below.len() as int];
                                            if x < b {
                                                lemma_before_later_branch(k, below, x, b);
                                                lemma_before_path(k, under, key@);
                                            }
                                        }
                                    }
                                }
                                let next = if b == 255 {
                                    None
                                } else {
                                    inner.next_child(b + 1)
                                };
                                match next {
                                    Some((x, child)) => {
                                        proof {
                                            inner.lemma_child_decreases(x);
                                        }
                                        let leaf = child.minimum_leaf(Ghost(below.push(x)));
                                        proof {
                                            let least = leaf.key_spec();
                                            lemma_lookup_through_child(**inner, path, x, least);
                                            lemma_before_later_branch(key@, below, b, x);
                                            lemma_before_path(key@, below.push(x), least);
                                            lemma_lex_lt_asymmetric(key@, least);
                                            assert forall|k: Seq<u8>| self.lookup(k, d).is_some() && !lex_lt(k, key@) implies k == least || lex_lt(
                                                least,
                                                k,
                                            ) by {
                                                lemma_key_routes(*self, path, k);
                                                lemma_minimum_from_child(*self, path, x, least, k);
                                            }
                                        }
                                        Some(leaf)
                                    },
                                    None => {
                                        proof {
                                            assert forall|k: Seq<u8>| self.lookup(k, d).is_some() implies lex_lt(k, key@) by {
                                                lemma_key_routes(*self, path, k);
                                            }
                                        }
                                        None
                                    },
                                }
                            },
                        }
                    },
                }
            },
        }
    }

    /// The upper bound of `key` in this subtree, to which the first `depth`
    /// bytes of the key lead: the leaf with the largest key that does not
    /// come after `key`.
    pub fn find_upper_bound_node(&self, key: &[u8], depth: usize) -> (found: Option<&LeafNode<V>>)
        requires
            depth <= key@.len(),
            self.wf(key@.take(depth as int)),
        ensures
            is_upper_bound(*self, depth as int, key@, match found {
                Some(leaf) => Some(*leaf),
                None => None,
            }),
        decreases *self,
    {
        let ghost path = key@.take(depth as int);
        let ghost d = depth as int;
        let key_len: usize = key.len();
        match self {
            Node::Leaf(leaf) => {
                if key_lt(key, leaf.key_ref().as_slice()) {
                    None
                } else {
                    Some(&**leaf)
                }
            },
            Node::Internal(inner) => {
                let ghost pp = inner.prefix();
                let ghost below = path + pp;
                match self.search_upper_bound(key, depth) {
                    BoundSearch::GoUp => None,
                    BoundSearch::Found(leaf) => Some(leaf),
                    BoundSearch::GoDown(at) => {
                        proof {
                            lemma_match_extends_path(pp, key@, d);
                        }
                        let b = key[at];
                        let ghost under = below.push(b);
                        let inside: Option<&LeafNode<V>> = match inner.find_child(b) {
                            Some(child) => {
                                proof {
                                    inner.lemma_child_decreases(b);
                                }
                                child.find_upper_bound_node(key, at + 1)
                            },
                            None => None,
                        };
                        match inside {
                            Some(leaf) => {
                                proof {
                                    let child = inner.child(b).unwrap();
                                    let greatest = leaf.key_spec();
                                    child.lemma_keys_extend_path(under, greatest);
                                    lemma_lookup_through_child(**inner, path, b, greatest);
                                    assert(below =~= greatest.subrange(0, (below.len() + 1) as int).subrange(0, below.len() as int));
                                    assert forall|k: Seq<u8>| self.lookup(k, d).is_some() && !lex_lt(key@, k) implies k == greatest || lex_lt(
                                        k,
                                        greatest,
                                    ) by {
                                        lemma_key_routes(*self, path, k);
                                        if k.len() == below.len() {
                                            lemma_before_longer(k, greatest);
                                        } else {
                                            let x = k[below.len() as int];
                                            if x < b {
                                                lemma_before_later_branch(k, below, x, b);
                                                lemma_before_path(k, under, greatest);
                                            } else if x > b {
                                                lemma_before_later_branch(key@, below, b, x);
                                                lemma_before_path(key@, below.push(x), k);
                                            }
                                        }
                                    }
                                }
                                Some(leaf)
                            },
                            None => {
                                proof {
                                    assert forall|k: Seq<u8>| self.lookup(k, d).is_some() && k.len() > below.len() && k[below.len() as int] >= b
                                        implies lex_lt(key@, k) by {
                                        lemma_key_routes(*self, path, k);
                                        let x = k[below.len() as int];
                                        if x > b {
                                            lemma_before_later_branch(key@, below, b, x);
                                            lemma_before_path(key@, below.push(x), k);
                                        }
                                    }
                                }
                                let prev = if b == 0 {
                                    None
                                } else {
                                    inner.prev_child(b - 1)
                                };
                                match prev {
                                    Some((x, child)) => {
                                        proof {
                                            inner.lemma_child_decreases(x);
                                        }
                                        let leaf = child.maximum_leaf(Ghost(below.push(x)));
                                        proof {
                                            let greatest = leaf.key_spec();
                                            lemma_lookup_through_child(**inner, path, x, greatest);
                                            lemma_before_later_branch(greatest, below, x, b);
                                            lemma_before_path(greatest, under, key@);
                                            lemma_lex_lt_asymmetric(greatest, key@);
                                            assert forall|k: Seq<u8>| self.lookup(k, d).is_some() && !lex_lt(key@, k) implies k == greatest || lex_lt(
                                                k,
                                                greatest,
                                            ) by {
                                                lemma_key_routes(*self, path, k);
                                                lemma_maximum_from_child(*self, path, x, greatest, k);
                                            }
                                        }
                                        Some(leaf)
                                    },
                                    None => {
                                        proof {
                                            lemma_lookup_at_leaf_slot(**inner, path);
                                            assert(below =~= key@.subrange(0, (below.len() + 1) as int).subrange(0, below.len() as int));
                                            lemma_before_longer(below, key@);
                                            lemma_lex_lt_asymmetric(below, key@);
                                            assert forall|k: Seq<u8>| self.lookup(k, d).is_some() && k.len() > below.len() implies lex_lt(key@, k) by {
                                                lemma_key_routes(*self, path, k);
                                            }
                                            assert forall|k: Seq<u8>| self.lookup(k, d).is_some() && k.len() <= below.len() implies k == below by {
                                                lemma_key_routes(*self, path, k);
                                            }
                                        }
                                        match inner.get_leaf() {
                                            Some(leaf) => Some(leaf),
                                            None => None,
                                        }
                                    },
                                }
                            },
                        }
                    },
                }
            },
        }
    }
}

impl<'a, V> NodeRef<'a, V> {
    /// Finds the first leaf below this node whose key does not come before
    /// `key`, of which the bytes up to the node's depth lead to the node.
    pub fn find_lower_bound_node(self, key: &[u8]) -> (found: Option<LeafNodeRef<'a, V>>)
        requires
            self.prefix_len <= key@.len(),
            self.inner.wf(key@.take(self.prefix_len as int)),
        ensures
            is_lower_bound(*self.inner, self.prefix_len as int, key@, match found {
                Some(leaf) => Some(*leaf.inner),
                None => None,
            }),
            found matches Some(leaf) ==> leaf.prefix_len == self.prefix_len,
    {
        match self.inner.find_lower_bound_node(key, self.prefix_len) {
            Some(leaf) => Some(LeafNodeRef { inner: leaf, prefix_len: self.prefix_len }),
            None => None,
        }
    }

    /// Finds the last leaf below this node whose key does not come after
    /// `key`, of which the bytes up to the node's depth lead to the node.
    pub fn find_upper_bound_node(self, key: &[u8]) -> (found: Option<LeafNodeRef<'a, V>>)
        requires
            self.prefix_len <= key@.len(),
            self.inner.wf(key@.take(self.prefix_len as int)),
        ensures
            is_upper_bound(*self.inner, self.prefix_len as int, key@, match found {
                Some(leaf) => Some(*leaf.inner),
                None => None,
            }),
            found matches Some(leaf) ==> leaf.prefix_len == self.prefix_len,
    {
        match self.inner.find_upper_bound_node(key, self.prefix_len) {
            Some(leaf) => Some(LeafNodeRef { inner: leaf, prefix_len: self.prefix_len }),
            None => None,
        }
    }
}

} // verus!
