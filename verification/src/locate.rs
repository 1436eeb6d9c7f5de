//! Descending the tree with exclusive access, down to the node at which a
//! key is stored or has to be put in.

use vstd::prelude::*;
use vstd::pervasive::unreached;
use crate::insert::{inserted, is_insertion_site};
use crate::node::base::{lemma_match_extends_path, match_prefix_at, prefix_match, PrefixMatchResult};
use crate::marker::{InternalOrLeaf, Mut, Reference};
use crate::node::leaf::LeafNode;
use crate::node::{Node, NodeRef};
use crate::remove::is_holder;
use crate::util::suffix_eq;

verus! {

/// An exclusive reference to a node, with the number of key bytes that lead
/// from the root to it.
pub struct NodeMut<'a, V> {
    pub inner: &'a mut Node<V>,
    pub prefix_len: usize,
}

impl<'a, V> Reference for NodeMut<'a, V> {
    type Borrow = Mut<'a>;

    type Kind = InternalOrLeaf;
}

impl<'a, V> NodeMut<'a, V> {
    /// A shared reference to the same node, for as long as this one is
    /// borrowed.
    pub fn reborrow(&self) -> (shared: NodeRef<'_, V>)
        ensures
            *shared.inner == self.node(),
            shared.prefix_len == self.prefix_len,
    {
        NodeRef { inner: &*self.inner, prefix_len: self.prefix_len }
    }

    /// An exclusive reference to the same node, for as long as this one is
    /// borrowed. What it leaves behind is what this reference then refers
    /// to.
    pub fn reborrow_mut(&mut self) -> (exclusive: NodeMut<'_, V>)
        ensures
            *exclusive.inner == old(self).node(),
            exclusive.prefix_len == old(self).prefix_len,
            final(self).prefix_len == old(self).prefix_len,
            final(self).node() == *final(exclusive.inner),
            *final(final(self).inner) == *final(old(self).inner),
    {
        NodeMut { inner: &mut *self.inner, prefix_len: self.prefix_len }
    }

    /// The node that is referred to, as it stands.
    pub open spec fn node(self) -> Node<V> {
        *self.inner
    }
}

/// How the subtree `after` depends on what is done to one node in it.
///
/// `before` is the subtree as it was, reached along `path`. The node at
/// `site_path` is being rewritten and ends as `site_after`. As long as that
/// node ends well formed, the subtree is well formed, and it answers
/// a key that passes through the rewritten node as that node does, and any
/// other key as before.
pub open spec fn grafted<V>(before: Node<V>, after: Node<V>, path: Seq<u8>, site_path: Seq<u8>, site_after: Node<V>) -> bool {
    site_after.wf(site_path) ==> {
        &&& after.wf(path)
        &&& forall|k: Seq<u8>| #[trigger] after.lookup(k, path.len() as int) == (if site_path.is_prefix_of(k) {
            site_after.lookup(k, site_path.len() as int)
        } else {
            before.lookup(k, path.len() as int)
        })
    }
}

/// `after` is the internal node `before` with another subtree under key
/// byte `b`.
pub open spec fn child_replaced<V>(before: Node<V>, after: Node<V>, b: u8) -> bool {
    &&& before matches Node::Internal(old_inner)
    &&& after matches Node::Internal(new_inner)
    &&& new_inner.wf()
    &&& new_inner.prefix() == old_inner.prefix()
    &&& new_inner.leaf() == old_inner.leaf()
    &&& new_inner.count() == old_inner.count()
    &&& old_inner.child(b).is_some()
    &&& new_inner.child(b).is_some()
    &&& forall|x: u8| x != b ==> new_inner.child(x) == old_inner.child(x)
}

/// A node is grafted onto itself.
pub proof fn lemma_grafted_here<V>(before: Node<V>, after: Node<V>, path: Seq<u8>)
    requires
        before.wf(path),
    ensures
        grafted(before, after, path, path, after),
{
    if after.wf(path) {
        assert forall|k: Seq<u8>| #[trigger] after.lookup(k, path.len() as int) == (if path.is_prefix_of(k) {
            after.lookup(k, path.len() as int)
        } else {
            before.lookup(k, path.len() as int)
        }) by {
            if !path.is_prefix_of(k) {
                if after.lookup(k, path.len() as int).is_some() {
                    after.lemma_keys_extend_path(path, k);
                }
                if before.lookup(k, path.len() as int).is_some() {
                    before.lemma_keys_extend_path(path, k);
                }
            }
        }
    }
}

/// What is grafted into a child is grafted into its parent.
pub proof fn lemma_grafted_step<V>(before: Node<V>, after: Node<V>, path: Seq<u8>, b: u8, site_path: Seq<u8>, site_after: Node<V>)
    requires
        before.wf(path),
        child_replaced(before, after, b),
        (path + before->Internal_0.prefix()).push(b).is_prefix_of(site_path),
        grafted(
            before->Internal_0.child(b).unwrap(),
            after->Internal_0.child(b).unwrap(),
            (path + before->Internal_0.prefix()).push(b),
            site_path,
            site_after,
        ),
    ensures
        grafted(before, after, path, site_path, site_after),
{
    let old_inner = before->Internal_0;
    let new_inner = after->Internal_0;
    let pp = old_inner.prefix();
    let below = (path + pp).push(b);
    let d = path.len() as int;
    if site_after.wf(site_path) {
        assert(after.wf(path)) by {
            assert forall|x: u8| new_inner.child(x).is_some() implies (#[trigger] new_inner.child(x)).unwrap().wf((path + pp).push(x)) by {
                if x != b {
                    assert(old_inner.child(x).is_some());
                }
            }
        }
        assert forall|k: Seq<u8>| #[trigger] after.lookup(k, d) == (if site_path.is_prefix_of(k) {
            site_after.lookup(k, site_path.len() as int)
        } else {
            before.lookup(k, d)
        }) by {
            let old_child = old_inner.child(b).unwrap();
            let new_child = new_inner.child(b).unwrap();
            assert(new_child.lookup(k, below.len() as int) == (if site_path.is_prefix_of(k) {
                site_after.lookup(k, site_path.len() as int)
            } else {
                old_child.lookup(k, below.len() as int)
            }));
            if site_path.is_prefix_of(k) {
                assert(below =~= k.subrange(0, below.len() as int)) by {
                    assert(below =~= site_path.subrange(0, below.len() as int));
                }
                assert(k.skip(d).take(pp.len() as int) =~= pp) by {
                    assert forall|i: int| 0 <= i < pp.len() implies k[d + i] == pp[i] by {
                        assert(below[d + i] == pp[i]);
                    }
                }
                assert(k[d + pp.len()] == b) by {
                    assert(below[d + pp.len()] == b);
                }
            }
        }
    }
}

/// What the descent does at one node.
#[derive(Clone, Copy, PartialEq, Eq, Structural)]
pub enum Step {
    /// The descent ends here; the flag says whether the key is present.
    Here(bool),
    /// The descent goes on at the child under this key byte.
    Down(u8),
}

/// The step that the descent for `key` takes at `node`.
///
/// It ends at a leaf, at an internal node whose prefix the key does not
/// follow, at one where the key ends, and at one that has no child under the
/// key's next byte or has the key's own leaf there. Otherwise it goes down
/// to the child under the next byte.
pub open spec fn step_at<V>(node: Node<V>, key: Seq<u8>, depth: int) -> Step {
    match node {
        Node::Leaf(leaf) => Step::Here(leaf.key_spec() == key),
        Node::Internal(inner) => match prefix_match(inner.prefix(), key.skip(depth)) {
            PrefixMatchResult::Fail => Step::Here(false),
            PrefixMatchResult::Exact => Step::Here(inner.leaf().is_some()),
            PrefixMatchResult::Extra => {
                let b = key[depth + inner.prefix().len()];
                match inner.child(b) {
                    None => Step::Here(false),
                    Some(Node::Leaf(leaf)) => if leaf.key_spec() == key {
                        Step::Here(true)
                    } else {
                        Step::Down(b)
                    },
                    Some(Node::Internal(_)) => Step::Down(b),
                }
            },
        },
    }
}

/// Where the descent ends with the key present the node holds the key, and
/// where it ends without it the node is the place to put the key in; either
/// way the answer is the node's answer for the key.
pub proof fn lemma_step_here<V>(node: Node<V>, key: Seq<u8>, depth: int)
    requires
        0 <= depth <= key.len(),
        node.wf(key.take(depth)),
        step_at(node, key, depth) is Here,
    ensures
        step_at(node, key, depth) == Step::Here(true) ==> is_holder(node, key, depth),
        step_at(node, key, depth) == Step::Here(false) ==> is_insertion_site(node, key, depth),
        step_at(node, key, depth) == Step::Here(node.lookup(key, depth).is_some()),
{
    reveal_with_fuel(Node::lookup, 2);
    match node {
        Node::Leaf(_) => {},
        Node::Internal(inner) => {
            if prefix_match(inner.prefix(), key.skip(depth)) != PrefixMatchResult::Fail {
                lemma_match_extends_path(inner.prefix(), key, depth);
                assert(key.take(key.len() as int) =~= key);
            }
        },
    }
}

/// Where the descent goes down the child is well formed one prefix and one
/// byte further along the key, and answers for the key as its parent does.
pub proof fn lemma_step_down<V>(node: Node<V>, key: Seq<u8>, depth: int)
    requires
        0 <= depth <= key.len(),
        node.wf(key.take(depth)),
        step_at(node, key, depth) is Down,
    ensures
        node is Internal,
        ({
            let inner = node->Internal_0;
            let below = depth + inner.prefix().len();
            let b = key[below];
            &&& below < key.len()
            &&& step_at(node, key, depth) == Step::Down(b)
            &&& inner.child(b).is_some()
            &&& (key.take(depth) + inner.prefix()).push(b) == key.take(below + 1)
            &&& inner.child(b).unwrap().wf(key.take(below + 1))
            &&& inner.child(b).unwrap().lookup(key, below + 1) == node.lookup(key, depth)
            &&& decreases_to!(node => inner.child(b).unwrap())
        }),
{
    let inner = node->Internal_0;
    lemma_match_extends_path(inner.prefix(), key, depth);
    inner.lemma_child_decreases(key[depth + inner.prefix().len()]);
}

/// Decides the step of the descent for `key` at `node`.
pub fn step_of<V>(node: &Node<V>, key: &[u8], depth: usize) -> (step: Step)
    requires
        depth <= key@.len(),
        node.wf(key@.take(depth as int)),
    ensures
        step == step_at(*node, key@, depth as int),
{
    let key_len: usize = key.len();
    match node {
        Node::Leaf(leaf) => {
            let same = suffix_eq(key, depth, leaf.key_ref().as_slice(), depth);
            proof {
                let lk = leaf.key_spec();
                let d = depth as int;
                assert(key@ =~= key@.take(d) + key@.skip(d));
                assert(lk =~= lk.take(d) + lk.skip(d));
                assert(lk.take(d) =~= key@.take(d));
            }
            Step::Here(same)
        },
        Node::Internal(inner) => {
            let prefix = inner.partial_key();
            match match_prefix_at(prefix, key, depth) {
                PrefixMatchResult::Fail => Step::Here(false),
                PrefixMatchResult::Exact => Step::Here(inner.get_leaf().is_some()),
                PrefixMatchResult::Extra => {
                    proof {
                        lemma_match_extends_path(inner.prefix(), key@, depth as int);
                    }
                    let below: usize = depth + prefix.len();
                    let b = key[below];
                    match inner.find_child(b) {
                        None => Step::Here(false),
                        Some(Node::Leaf(leaf)) => {
                            proof {
                                assert(inner.child(b).unwrap().wf(key@.take(below + 1)));
                            }
                            let same = suffix_eq(key, below + 1, leaf.key_ref().as_slice(), below + 1);
                            proof {
                                let lk = leaf.key_spec();
                                let d = below + 1;
                                assert(key@ =~= key@.take(d) + key@.skip(d));
                                assert(lk =~= lk.take(d) + lk.skip(d));
                                assert(lk.take(d) =~= key@.take(d));
                            }
                            if same {
                                Step::Here(true)
                            } else {
                                Step::Down(b)
                            }
                        },
                        Some(Node::Internal(_)) => Step::Down(b),
                    }
                },
            }
        },
    }
}

/// Descends from `node` along `key` to the node at which the key is held
/// or has to be put in, and hands out exclusive access to that node.
///
/// The flag tells whether the key is present. Whatever is then done to the
/// node that is handed out, the subtree below `node` changes with it as
/// `grafted` says.
pub fn locate_mut<'a, V>(node: &'a mut Node<V>, key: &[u8], depth: usize) -> (site: (NodeMut<'a, V>, bool))
    requires
        depth <= key@.len(),
        old(node).wf(key@.take(depth as int)),
    ensures
        depth <= site.0.prefix_len <= key@.len(),
        site.0.inner.wf(key@.take(site.0.prefix_len as int)),
        site.1 == old(node).lookup(key@, depth as int).is_some(),
        site.0.inner.lookup(key@, site.0.prefix_len as int) == old(node).lookup(key@, depth as int),
        site.1 ==> is_holder(*site.0.inner, key@, site.0.prefix_len as int),
        site.1 && *old(node) is Internal ==> *site.0.inner is Internal,
        !site.1 ==> is_insertion_site(*site.0.inner, key@, site.0.prefix_len as int),
        grafted(*old(node), *old(node), key@.take(depth as int), key@.take(site.0.prefix_len as int), *site.0.inner),
        grafted(*old(node), *final(node), key@.take(depth as int), key@.take(site.0.prefix_len as int), *final(site.0.inner)),
    decreases *old(node),
{
    let ghost before = *node;
    let ghost path = key@.take(depth as int);
    let key_len: usize = key.len();
    match step_of(node, key, depth) {
        Step::Here(present) => {
            proof {
                lemma_step_here(before, key@, depth as int);
                assert forall|after: Node<V>| #[trigger] grafted(before, after, path, path, after) by {
                    lemma_grafted_here(before, after, path);
                }
            }
            (NodeMut { inner: node, prefix_len: depth }, present)
        },
        Step::Down(b) => {
            proof {
                lemma_step_down(before, key@, depth as int);
            }
            match node {
                Node::Internal(inner) => {
                    let below: usize = depth + inner.partial_key().len() + 1;
                    proof {
                        let child = before->Internal_0.child(b).unwrap();
                        assert(child_replaced(before, before, b));
                        assert forall|after: Node<V>, site_depth: int, site_after: Node<V>|
                            child_replaced(before, after, b) && below <= site_depth <= key@.len()
                            && grafted(child, after->Internal_0.child(b).unwrap(), key@.take(below as int), key@.take(site_depth), site_after)
                            implies #[trigger] grafted(before, after, path, key@.take(site_depth), site_after) by {
                            assert(key@.take(below as int) =~= key@.take(site_depth).subrange(0, below as int));
                            lemma_grafted_step(before, after, path, b, key@.take(site_depth), site_after);
                        }
                    }
                    match inner.find_child_mut(b) {
                        Some(child) => locate_mut(child, key, below),
                        None => unreached(),
                    }
                },
                Node::Leaf(_) => unreached(),
            }
        },
    }
}

/// `after` is `before` with the leaf of `key`, which `before` holds, written
/// over by `leaf`.
pub open spec fn leaf_swapped<V>(before: Node<V>, after: Node<V>, key: Seq<u8>, depth: int, leaf: LeafNode<V>) -> bool {
    match before {
        Node::Leaf(_) => after == Node::Leaf(Box::new(leaf)),
        Node::Internal(old_inner) => match prefix_match(old_inner.prefix(), key.skip(depth)) {
            PrefixMatchResult::Fail => false,
            PrefixMatchResult::Exact => {
                &&& after matches Node::Internal(new_inner)
                &&& new_inner.wf()
                &&& new_inner.prefix() == old_inner.prefix()
                &&& new_inner.count() == old_inner.count()
                &&& new_inner.leaf() == Some(leaf)
                &&& forall|x: u8| new_inner.child(x) == old_inner.child(x)
            },
            PrefixMatchResult::Extra => {
                let b = key[depth + old_inner.prefix().len()];
                &&& child_replaced(before, after, b)
                &&& after->Internal_0.child(b) == Some(Node::Leaf(Box::new(leaf)))
            },
        },
    }
}

/// What comes of a tree when the leaf of `key` is rewritten in place and
/// ends as `leaf`: as long as the leaf keeps its key, the tree stays well
/// formed, still holds the key in the same node, and answers for the key
/// with the leaf's new value and for all others as before.
pub open spec fn leaf_rewritten<V>(before: Node<V>, after: Node<V>, key: Seq<u8>, depth: int, leaf: LeafNode<V>) -> bool {
    leaf.key_spec() == key ==> {
        &&& after.wf(key.take(depth))
        &&& is_holder(after, key, depth)
        &&& (before is Internal ==> after is Internal)
        &&& inserted(before, after, key, leaf.value_spec(), depth)
    }
}

/// Writing another leaf with the same key over the leaf of a key rewrites
/// the tree as `leaf_rewritten` says.
pub proof fn lemma_leaf_swapped<V>(before: Node<V>, after: Node<V>, key: Seq<u8>, depth: int, leaf: LeafNode<V>)
    requires
        0 <= depth <= key.len(),
        before.wf(key.take(depth)),
        is_holder(before, key, depth),
        leaf_swapped(before, after, key, depth, leaf),
    ensures
        leaf_rewritten(before, after, key, depth, leaf),
{
    if leaf.key_spec() == key {
        let path = key.take(depth);
        match before {
            Node::Leaf(_) => {},
            Node::Internal(old_inner) => {
                let new_inner = after->Internal_0;
                let pp = old_inner.prefix();
                lemma_match_extends_path(pp, key, depth);
                assert(key.take(key.len() as int) =~= key);
                assert forall|x: u8| new_inner.child(x).is_some() implies (#[trigger] new_inner.child(x)).unwrap().wf((path + pp).push(x)) by {
                    if old_inner.child(x).is_some() {
                        assert(old_inner.child(x).unwrap().wf((path + pp).push(x)));
                    }
                }
                assert forall|k: Seq<u8>| #[trigger] after.lookup(k, depth) == (if k == key {
                    Some(leaf.value_spec())
                } else {
                    before.lookup(k, depth)
                }) by {
                    reveal_with_fuel(Node::lookup, 2);
                }
            },
        }
    }
}

impl<V> Node<V> {
    /// The leaf of `key` in this node, which holds it.
    pub fn held_leaf(&self, key: &[u8], depth: usize) -> (leaf: &LeafNode<V>)
        requires
            depth <= key@.len(),
            self.wf(key@.take(depth as int)),
            is_holder(*self, key@, depth as int),
        ensures
            leaf.key_spec() == key@,
            self.lookup(key@, depth as int) == Some(leaf.value_spec()),
    {
        let key_len: usize = key.len();
        proof {
            reveal_with_fuel(Node::lookup, 2);
        }
        match self {
            Node::Leaf(leaf) => &**leaf,
            Node::Internal(inner) => {
                proof {
                    lemma_match_extends_path(inner.prefix(), key@, depth as int);
                    assert(key@.take(key@.len() as int) =~= key@);
                }
                let below: usize = depth + inner.partial_key().len();
                if below == key_len {
                    match inner.get_leaf() {
                        Some(leaf) => leaf,
                        None => unreached(),
                    }
                } else {
                    match inner.find_child(key[below]) {
                        Some(Node::Leaf(leaf)) => &**leaf,
                        _ => unreached(),
                    }
                }
            },
        }
    }

    /// Exclusive access to the leaf of `key` in this node, which holds it.
    pub fn held_leaf_mut(&mut self, key: &[u8], depth: usize) -> (leaf: &mut LeafNode<V>)
        requires
            depth <= key@.len(),
            old(self).wf(key@.take(depth as int)),
            is_holder(*old(self), key@, depth as int),
        ensures
            leaf.key_spec() == key@,
            old(self).lookup(key@, depth as int) == Some(leaf.value_spec()),
            leaf_rewritten(*old(self), *final(self), key@, depth as int, *final(leaf)),
    {
        let key_len: usize = key.len();
        let ghost before = *self;
        proof {
            reveal_with_fuel(Node::lookup, 2);
            assert forall|after: Node<V>, leaf: LeafNode<V>| leaf_swapped(before, after, key@, depth as int, leaf)
                implies #[trigger] leaf_rewritten(before, after, key@, depth as int, leaf) by {
                lemma_leaf_swapped(before, after, key@, depth as int, leaf);
            }
        }
        match self {
            Node::Leaf(leaf) => &mut **leaf,
            Node::Internal(inner) => {
                proof {
                    lemma_match_extends_path(inner.prefix(), key@, depth as int);
                    assert(key@.take(key@.len() as int) =~= key@);
                }
                let below: usize = depth + inner.partial_key().len();
                if below == key_len {
                    match inner.get_leaf_mut() {
                        Some(leaf) => leaf,
                        None => unreached(),
                    }
                } else {
                    match inner.find_child_mut(key[below]) {
                        Some(Node::Leaf(leaf)) => &mut **leaf,
                        _ => unreached(),
                    }
                }
            },
        }
    }
}

} // verus!
