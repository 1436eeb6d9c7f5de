//! What the invariant of the tree entails: every subtree holds a key, an
//! internal node's prefix is the longest that its keys share, and the shape
//! of a tree is decided by what it holds.

use vstd::prelude::*;
use crate::node::base::lemma_match_extends_path;
use crate::node::internal::{layout_capacity, layout_for, InternalNode};
use crate::node::Node;
use crate::util::is_common_len;

verus! {

/// A key that passes an internal node's prefix and goes on with byte `b` is
/// answered by the child under `b`.
pub proof fn lemma_lookup_through_child<V>(inner: InternalNode<V>, path: Seq<u8>, b: u8, key: Seq<u8>)
    requires
        inner.wf(),
        (path + inner.prefix()).push(b).is_prefix_of(key),
    ensures
        Node::Internal(Box::new(inner)).lookup(key, path.len() as int) == (match inner.child(b) {
            Some(child) => child.lookup(key, (path.len() + inner.prefix().len() + 1) as int),
            None => None,
        }),
{
    let pp = inner.prefix();
    let d = path.len() as int;
    let below = (path + pp).push(b);
    assert(below =~= key.subrange(0, below.len() as int));
    assert(key.skip(d).take(pp.len() as int) =~= pp) by {
        assert forall|i: int| 0 <= i < pp.len() implies key[d + i] == pp[i] by {
            assert(below[d + i] == pp[i]);
        }
    }
    assert(key[d + pp.len()] == b) by {
        assert(below[d + pp.len()] == b);
    }
}

/// The key that ends at an internal node is answered by the node's leaf
/// slot.
pub proof fn lemma_lookup_at_leaf_slot<V>(inner: InternalNode<V>, path: Seq<u8>)
    requires
        inner.wf(),
    ensures
        Node::Internal(Box::new(inner)).lookup(path + inner.prefix(), path.len() as int) == (match inner.leaf() {
            Some(leaf) => if leaf.key_spec() == path + inner.prefix() {
                Some(leaf.value_spec())
            } else {
                None
            },
            None => None,
        }),
{
    let pp = inner.prefix();
    let key = path + pp;
    assert(key.skip(path.len() as int) =~= pp);
    assert(pp.take(pp.len() as int) =~= pp);
}

/// A node that holds children has one.
pub proof fn lemma_some_child<V>(inner: InternalNode<V>) -> (b: u8)
    requires
        inner.count() >= 1,
    ensures
        inner.child(b).is_some(),
{
    inner.lemma_count();
    let dom = inner.children().dom();
    if dom =~= Set::<u8>::empty() {
        assert(dom.len() == 0);
    }
    let b = choose|b: u8| dom.contains(b);
    b
}

/// A node that holds two children or more has one besides `b`.
pub proof fn lemma_other_child<V>(inner: InternalNode<V>, b: u8) -> (other: u8)
    requires
        inner.count() >= 2,
    ensures
        other != b,
        inner.child(other).is_some(),
{
    inner.lemma_count();
    let dom = inner.children().dom();
    let rest = dom.remove(b);
    if rest =~= Set::<u8>::empty() {
        assert(rest.len() == 0);
    }
    let other = choose|x: u8| rest.contains(x);
    other
}

/// Every well-formed subtree holds a key.
pub proof fn lemma_has_key<V>(node: Node<V>, path: Seq<u8>) -> (key: Seq<u8>)
    requires
        node.wf(path),
    ensures
        node.lookup(key, path.len() as int).is_some(),
        path.is_prefix_of(key),
    decreases node,
{
    match node {
        Node::Leaf(leaf) => leaf.key_spec(),
        Node::Internal(inner) => {
            let below = path + inner.prefix();
            if inner.leaf().is_some() {
                lemma_lookup_at_leaf_slot(*inner, path);
                assert(path =~= below.subrange(0, path.len() as int));
                below
            } else {
                let b = lemma_some_child(*inner);
                inner.lemma_child_decreases(b);
                let key = lemma_has_key(inner.child(b).unwrap(), below.push(b));
                lemma_lookup_through_child(*inner, path, b, key);
                node.lemma_keys_extend_path(path, key);
                key
            }
        },
    }
}

/// An internal node's partial prefix reaches as far as its keys agree: the
/// node holds two keys that have in common exactly the path to the node and
/// the node's prefix.
pub proof fn lemma_prefix_is_longest<V>(node: Node<V>, path: Seq<u8>) -> (keys: (Seq<u8>, Seq<u8>))
    requires
        node is Internal,
        node.wf(path),
    ensures
        node.lookup(keys.0, path.len() as int).is_some(),
        node.lookup(keys.1, path.len() as int).is_some(),
        (path + node->Internal_0.prefix()).is_prefix_of(keys.0),
        (path + node->Internal_0.prefix()).is_prefix_of(keys.1),
        is_common_len(keys.0, keys.1, (path + node->Internal_0.prefix()).len() as int),
        keys.0 != keys.1,
{
    let inner = *node->Internal_0;
    let below = path + inner.prefix();
    let n = below.len() as int;
    let b = lemma_some_child(inner);
    let under_b = below.push(b);
    let second = lemma_has_key(inner.child(b).unwrap(), under_b);
    lemma_lookup_through_child(inner, path, b, second);
    assert(below =~= second.subrange(0, n)) by {
        assert(under_b =~= second.subrange(0, n + 1));
    }
    assert(second[n] == b) by {
        assert(second.subrange(0, n + 1)[n] == under_b[n]);
    }
    if inner.leaf().is_some() {
        lemma_lookup_at_leaf_slot(inner, path);
        assert(below.take(n) =~= second.take(n));
        assert(below =~= below.subrange(0, n));
        (below, second)
    } else {
        let c = lemma_other_child(inner, b);
        let under_c = below.push(c);
        let first = lemma_has_key(inner.child(c).unwrap(), under_c);
        lemma_lookup_through_child(inner, path, c, first);
        assert(below =~= first.subrange(0, n)) by {
            assert(under_c =~= first.subrange(0, n + 1));
        }
        assert(first[n] == c) by {
            assert(first.subrange(0, n + 1)[n] == under_c[n]);
        }
        assert(first.take(n) =~= second.take(n));
        (first, second)
    }
}

/// What the invariant says of an internal node that is reached along
/// `path`, one rule after the other.
///
/// The key in the leaf slot is the path followed by the node's prefix, and
/// each child is well formed one key byte further down. The node holds at
/// least two leaves or subtrees. Its children are stored in the smallest
/// layout that has room for them, and there are no more of them than the
/// layout has room for. The prefix is stored inline exactly when it has at
/// most 16 bytes. And the prefix is the longest that the keys below the node
/// share: two of them part right after it.
pub proof fn lemma_invariants<V>(node: Node<V>, path: Seq<u8>) -> (keys: (Seq<u8>, Seq<u8>))
    requires
        node is Internal,
        node.wf(path),
    ensures
        ({
            let inner = node->Internal_0;
            &&& inner.leaf() matches Some(leaf) ==> leaf.key_spec() == path + inner.prefix()
            &&& forall|b: u8| (#[trigger] inner.child(b)).is_some() ==> inner.child(b).unwrap().wf((path + inner.prefix()).push(b))
            &&& inner.occupancy() >= 2
            &&& inner.layout() == layout_for(inner.count())
            &&& inner.count() <= layout_capacity(inner.layout())
            &&& inner.prefix_is_inline() <==> inner.prefix().len() <= 16
            &&& node.lookup(keys.0, path.len() as int).is_some()
            &&& node.lookup(keys.1, path.len() as int).is_some()
            &&& is_common_len(keys.0, keys.1, (path + inner.prefix()).len() as int)
        }),
{
    let inner = *node->Internal_0;
    inner.lemma_wf();
    lemma_prefix_is_longest(node, path)
}

impl<V> Node<V> {
    /// The two trees have the same shape and hold the same: leaf for leaf
    /// the same key and value, internal node for internal node the same
    /// prefix, layout and leaf slot, and under each key byte the same
    /// subtree.
    pub open spec fn same_tree(self, other: Node<V>) -> bool
        decreases self,
        via Self::same_tree_decreases
    {
        match self {
            Node::Leaf(leaf) => other matches Node::Leaf(twin) && leaf.key_spec() == twin.key_spec() && leaf.value_spec()
                == twin.value_spec(),
            Node::Internal(inner) => {
                &&& other matches Node::Internal(twin)
                &&& inner.prefix() == twin.prefix()
                &&& inner.layout() == twin.layout()
                &&& inner.count() == twin.count()
                &&& inner.leaf().is_some() == twin.leaf().is_some()
                &&& (inner.leaf() matches Some(leaf) ==> leaf.key_spec() == twin.leaf().unwrap().key_spec()
                    && leaf.value_spec() == twin.leaf().unwrap().value_spec())
                &&& forall|b: u8| (#[trigger] inner.child(b)).is_some() == twin.child(b).is_some()
                &&& forall|b: u8| inner.wf() && (#[trigger] inner.child(b)).is_some() && twin.child(b).is_some()
                    ==> inner.child(b).unwrap().same_tree(twin.child(b).unwrap())
            },
        }
    }

    #[via_fn]
    proof fn same_tree_decreases(self, other: Node<V>) {
        match self {
            Node::Leaf(_) => {},
            Node::Internal(inner) => {
                assert forall|b: u8| inner.wf() && (#[trigger] inner.child(b)).is_some() implies decreases_to!(self => inner.child(b).unwrap()) by {
                    inner.lemma_child_decreases(b);
                }
            },
        }
    }

    /// The number of nodes of the subtree: its leaves, those in leaf slots
    /// among them, and its internal nodes.
    pub open spec fn node_count(self) -> nat
        decreases self, 0nat,
        via Self::node_count_decreases
    {
        match self {
            Node::Leaf(_) => 1,
            Node::Internal(inner) => 1 + (if inner.leaf().is_some() {
                1nat
            } else {
                0nat
            }) + Self::children_node_count(*inner, 0),
        }
    }

    #[via_fn]
    proof fn node_count_decreases(self) {
    }

    /// The number of nodes below the children of `inner` whose key byte is
    /// not below `from`.
    pub open spec fn children_node_count(inner: InternalNode<V>, from: int) -> nat
        decreases inner, 256 - from,
        via Self::children_node_count_decreases
    {
        if 0 <= from < 256 {
            (match inner.child(from as u8) {
                Some(child) => if inner.wf() {
                    child.node_count()
                } else {
                    0
                },
                None => 0,
            }) + Self::children_node_count(inner, from + 1)
        } else {
            0
        }
    }

    #[via_fn]
    proof fn children_node_count_decreases(inner: InternalNode<V>, from: int) {
        if 0 <= from < 256 && inner.wf() && inner.child(from as u8).is_some() {
            inner.lemma_child_decreases(from as u8);
        }
    }
}

/// A key that does not pass through a subtree's path is not in the subtree.
pub proof fn lemma_lookup_off_path<V>(node: Node<V>, path: Seq<u8>, key: Seq<u8>)
    requires
        node.wf(path),
        !path.is_prefix_of(key),
    ensures
        node.lookup(key, path.len() as int).is_none(),
{
    if node.lookup(key, path.len() as int).is_some() {
        node.lemma_keys_extend_path(path, key);
    }
}

/// Trees of the same shape have the same number of nodes.
pub proof fn lemma_same_tree_node_count<V>(a: Node<V>, b: Node<V>, path: Seq<u8>)
    requires
        a.wf(path),
        b.wf(path),
        a.same_tree(b),
    ensures
        a.node_count() == b.node_count(),
    decreases a, 257nat,
{
    match a {
        Node::Leaf(_) => {},
        Node::Internal(inner) => {
            let twin = *b->Internal_0;
            lemma_same_children_node_count(*inner, twin, path, 0);
        },
    }
}

/// Nodes whose children have the same shape have the same number of nodes
/// below them.
pub proof fn lemma_same_children_node_count<V>(inner: InternalNode<V>, twin: InternalNode<V>, path: Seq<u8>, from: int)
    requires
        Node::Internal(Box::new(inner)).wf(path),
        Node::Internal(Box::new(twin)).wf(path),
        Node::Internal(Box::new(inner)).same_tree(Node::Internal(Box::new(twin))),
        0 <= from <= 256,
    ensures
        Node::children_node_count(inner, from) == Node::children_node_count(twin, from),
    decreases Node::Internal(Box::new(inner)), 256 - from,
{
    if from < 256 {
        let b = from as u8;
        assert(inner.child(b).is_some() == twin.child(b).is_some());
        if inner.child(b).is_some() {
            inner.lemma_child_decreases(b);
            let x = inner.child(b).unwrap();
            let y = twin.child(b).unwrap();
            assert(x.same_tree(y));
            assert(twin.child(b).is_some());
            lemma_same_tree_node_count(x, y, (path + inner.prefix()).push(b));
        }
        lemma_same_children_node_count(inner, twin, path, from + 1);
    }
}

/// Every key of an internal node starts with the path to the node and the
/// node's prefix.
pub proof fn lemma_keys_extend_prefix<V>(node: Node<V>, path: Seq<u8>, key: Seq<u8>)
    requires
        node is Internal,
        node.wf(path),
        node.lookup(key, path.len() as int).is_some(),
    ensures
        (path + node->Internal_0.prefix()).is_prefix_of(key),
{
    let inner = *node->Internal_0;
    let pp = inner.prefix();
    let d = path.len() as int;
    node.lemma_keys_extend_path(path, key);
    lemma_match_extends_path(pp, key, d);
    assert(key.take(d) =~= path);
}

/// How a key of an internal node is reached from the node: it ends at the
/// node and sits in the leaf slot, or it goes on and belongs to the child
/// under its next byte.
pub proof fn lemma_key_routes<V>(node: Node<V>, path: Seq<u8>, key: Seq<u8>)
    requires
        node is Internal,
        node.wf(path),
        node.lookup(key, path.len() as int).is_some(),
    ensures
        ({
            let inner = node->Internal_0;
            let below = path + inner.prefix();
            &&& below.is_prefix_of(key)
            &&& key.len() == below.len() ==> key == below && inner.leaf().is_some()
            &&& key.len() > below.len() ==> {
                let b = key[below.len() as int];
                &&& below.push(b).is_prefix_of(key)
                &&& inner.child(b).is_some()
                &&& inner.child(b).unwrap().lookup(key, (below.len() + 1) as int) == node.lookup(key, path.len() as int)
            }
        }),
{
    let inner = *node->Internal_0;
    let below = path + inner.prefix();
    lemma_keys_extend_prefix(node, path, key);
    if key.len() == below.len() {
        assert(key =~= below);
        lemma_lookup_at_leaf_slot(inner, path);
    } else {
        let b = key[below.len() as int];
        assert(below.push(b) =~= key.subrange(0, (below.len() + 1) as int));
        lemma_lookup_through_child(inner, path, b, key);
    }
}

/// Two keys that both start with `shared` have at least that much in
/// common.
pub proof fn lemma_common_len_covers(first: Seq<u8>, second: Seq<u8>, n: int, shared: Seq<u8>)
    requires
        is_common_len(first, second, n),
        shared.is_prefix_of(first),
        shared.is_prefix_of(second),
    ensures
        shared.len() <= n,
{
    if shared.len() > n {
        assert(first.subrange(0, shared.len() as int)[n] == second.subrange(0, shared.len() as int)[n]);
    }
}

/// Two well-formed internal nodes at the same place that hold the same keys
/// have the same prefix.
pub proof fn lemma_same_prefix<V>(a: Node<V>, b: Node<V>, path: Seq<u8>)
    requires
        a is Internal,
        b is Internal,
        a.wf(path),
        b.wf(path),
        forall|k: Seq<u8>| a.lookup(k, path.len() as int) == b.lookup(k, path.len() as int),
    ensures
        a->Internal_0.prefix() == b->Internal_0.prefix(),
{
    let pa = a->Internal_0.prefix();
    let pb = b->Internal_0.prefix();
    let d = path.len() as int;
    let (a1, a2) = lemma_prefix_is_longest(a, path);
    lemma_keys_extend_prefix(b, path, a1);
    lemma_keys_extend_prefix(b, path, a2);
    lemma_common_len_covers(a1, a2, (path + pa).len() as int, path + pb);
    let (b1, b2) = lemma_prefix_is_longest(b, path);
    lemma_keys_extend_prefix(a, path, b1);
    lemma_keys_extend_prefix(a, path, b2);
    lemma_common_len_covers(b1, b2, (path + pb).len() as int, path + pa);
    assert(pa =~= pb) by {
        assert forall|i: int| 0 <= i < pa.len() implies pa[i] == pb[i] by {
            assert((path + pa)[d + i] == a1.subrange(0, (path + pa).len() as int)[d + i]);
            assert((path + pb)[d + i] == a1.subrange(0, (path + pb).len() as int)[d + i]);
        }
    }
}

/// The shape of a tree is decided by what it holds: two well-formed trees at
/// the same place that answer every key alike are the same tree.
pub proof fn lemma_content_decides_shape<V>(a: Node<V>, b: Node<V>, path: Seq<u8>)
    requires
        a.wf(path),
        b.wf(path),
        forall|k: Seq<u8>| a.lookup(k, path.len() as int) == b.lookup(k, path.len() as int),
    ensures
        a.same_tree(b),
    decreases a,
{
    let d = path.len() as int;
    match a {
        Node::Leaf(leaf) => {
            match b {
                Node::Leaf(twin) => {
                    assert(a.lookup(leaf.key_spec(), d) == b.lookup(leaf.key_spec(), d));
                },
                Node::Internal(_) => {
                    let (k1, k2) = lemma_prefix_is_longest(b, path);
                    assert(a.lookup(k1, d) == b.lookup(k1, d));
                    assert(a.lookup(k2, d) == b.lookup(k2, d));
                },
            }
        },
        Node::Internal(inner) => {
            match b {
                Node::Leaf(twin) => {
                    let (k1, k2) = lemma_prefix_is_longest(a, path);
                    assert(a.lookup(k1, d) == b.lookup(k1, d));
                    assert(a.lookup(k2, d) == b.lookup(k2, d));
                },
                Node::Internal(twin) => {
                    lemma_same_prefix(a, b, path);
                    let pp = inner.prefix();
                    let below = path + pp;
                    lemma_lookup_at_leaf_slot(*inner, path);
                    lemma_lookup_at_leaf_slot(*twin, path);
                    assert(a.lookup(below, d) == b.lookup(below, d));
                    assert forall|x: u8| (#[trigger] inner.child(x)).is_some() == twin.child(x).is_some() by {
                        if inner.child(x).is_some() {
                            let k = lemma_has_key(inner.child(x).unwrap(), below.push(x));
                            lemma_lookup_through_child(*inner, path, x, k);
                            lemma_lookup_through_child(*twin, path, x, k);
                            assert(a.lookup(k, d) == b.lookup(k, d));
                        }
                        if twin.child(x).is_some() {
                            let k = lemma_has_key(twin.child(x).unwrap(), below.push(x));
                            lemma_lookup_through_child(*inner, path, x, k);
                            lemma_lookup_through_child(*twin, path, x, k);
                            assert(a.lookup(k, d) == b.lookup(k, d));
                        }
                    }
                    assert forall|x: u8| inner.wf() && (#[trigger] inner.child(x)).is_some() && twin.child(x).is_some() implies inner.child(
                        x,
                    ).unwrap().same_tree(twin.child(x).unwrap()) by {
                        let ca = inner.child(x).unwrap();
                        let cb = twin.child(x).unwrap();
                        let under = below.push(x);
                        assert forall|k: Seq<u8>| ca.lookup(k, under.len() as int) == cb.lookup(k, under.len() as int) by {
                            if under.is_prefix_of(k) {
                                lemma_lookup_through_child(*inner, path, x, k);
                                lemma_lookup_through_child(*twin, path, x, k);
                                assert(a.lookup(k, d) == b.lookup(k, d));
                            } else {
                                lemma_lookup_off_path(ca, under, k);
                                lemma_lookup_off_path(cb, under, k);
                            }
                        }
                        inner.lemma_child_decreases(x);
                        lemma_content_decides_shape(ca, cb, under);
                    }
                    inner.lemma_count();
                    twin.lemma_count();
                    assert(inner.children().dom() =~= twin.children().dom());
                    inner.lemma_wf();
                    twin.lemma_wf();
                },
            }
        },
    }
}

} // verus!
