//! Taking a key out of the tree, and keeping the tree compressed afterwards.

use vstd::prelude::*;
use vstd::pervasive::unreached;
use crate::node::base::{lemma_match_extends_path, lemma_prefix_match_split, prefix_match, PrefixMatchResult};
use crate::node::internal::InternalNode;
use crate::node::leaf::LeafNode;
use crate::node::Node;
use crate::util::{append_bytes, to_vec};

verus! {

/// The internal node `node` holds the leaf for `key` itself: in its leaf
/// slot when the key ends at the node, else as the child under the key's
/// next byte.
pub open spec fn holds_leaf_of<V>(node: Node<V>, key: Seq<u8>, depth: int) -> bool {
    match node {
        Node::Leaf(_) => false,
        Node::Internal(inner) => match prefix_match(inner.prefix(), key.skip(depth)) {
            PrefixMatchResult::Fail => false,
            PrefixMatchResult::Exact => inner.leaf().is_some(),
            PrefixMatchResult::Extra => inner.child(key[depth + inner.prefix().len()]) matches Some(Node::Leaf(leaf))
                && leaf.key_spec() == key,
        },
    }
}

/// `node` holds `key` itself: it is the leaf of that key, or the internal
/// node that has that leaf in its leaf slot or as a child.
pub open spec fn is_holder<V>(node: Node<V>, key: Seq<u8>, depth: int) -> bool {
    match node {
        Node::Leaf(leaf) => leaf.key_spec() == key,
        Node::Internal(_) => holds_leaf_of(node, key, depth),
    }
}

/// `after` holds what `before` holds, but for `key`.
pub open spec fn removed<V>(before: Node<V>, after: Node<V>, key: Seq<u8>, depth: int) -> bool {
    forall|k: Seq<u8>| #[trigger] after.lookup(k, depth) == (if k == key {
        None
    } else {
        before.lookup(k, depth)
    })
}

/// `after` holds exactly what `before` holds.
pub open spec fn same_entries<V>(before: Node<V>, after: Node<V>, depth: int) -> bool {
    forall|k: Seq<u8>| #[trigger] after.lookup(k, depth) == before.lookup(k, depth)
}

/// An internal node is well formed at `path` but for the number of leaves
/// and subtrees it holds, which may have dropped to one.
pub open spec fn wf_but_occupancy<V>(inner: InternalNode<V>, path: Seq<u8>) -> bool {
    &&& inner.wf()
    &&& inner.occupancy() >= 1
    &&& (inner.leaf() matches Some(leaf) ==> leaf.key_spec() == path + inner.prefix())
    &&& forall|b: u8| inner.child(b).is_some() ==> (#[trigger] inner.child(b)).unwrap().wf((path + inner.prefix()).push(b))
}

impl<V> Node<V> {
    /// Restores the rule that an internal node holds at least two leaves or
    /// subtrees. A node left with only its own leaf becomes that leaf; a
    /// node left with a single child becomes that child, which, when it is
    /// internal, takes over this node's prefix and its own key byte in front
    /// of its prefix.
    fn collapse(&mut self, depth: Ghost<int>, path: Ghost<Seq<u8>>)
        requires
            *old(self) is Internal,
            path@.len() == depth@,
            wf_but_occupancy(*(*old(self))->Internal_0, path@),
        ensures
            final(self).wf(path@),
            same_entries(*old(self), *final(self), depth@),
    {
        let ghost before = *(*old(self))->Internal_0;
        let ghost pp = before.prefix();
        let ghost d = depth@;
        let replacement: Option<Node<V>> = match self {
            Node::Leaf(_) => None,
            Node::Internal(this) => {
                let count = this.children_count();
                let has_leaf = this.get_leaf().is_some();
                if count == 0 {
                    match this.take_leaf() {
                        Some(leaf) => {
                            proof {
                                before.lemma_count();
                                before.children().dom().lemma_len0_is_empty();
                                assert forall|x: u8| before.child(x).is_none() by {
                                    assert(!before.children().dom().contains(x));
                                }
                                let lk = leaf.key_spec();
                                assert(path@.is_prefix_of(lk)) by {
                                    assert((path@ + pp).subrange(0, d) =~= path@);
                                }
                                assert forall|k: Seq<u8>| #[trigger] Node::Leaf(leaf).lookup(k, d) == old(self).lookup(k, d) by {
                                    if k == lk {
                                        assert(k.skip(d) =~= pp);
                                        assert(k.skip(d).take(pp.len() as int) =~= pp);
                                    }
                                }
                            }
                            Some(Node::Leaf(leaf))
                        },
                        None => None,
                    }
                } else if count == 1 && !has_leaf {
                    proof {
                        before.lemma_count();
                        if forall|x: u8| before.child(x).is_none() {
                            assert(before.children().dom() =~= Set::<u8>::empty());
                        }
                    }
                    match this.next_child(0) {
                        Some((b, _)) => {
                            let mut merged: Vec<u8> = to_vec(this.partial_key());
                            merged.push(b);
                            match this.remove_child(b) {
                                Some(child) => {
                                    proof {
                                        this.lemma_count();
                                        this.children().dom().lemma_len0_is_empty();
                                        assert forall|x: u8| x != b implies before.child(x).is_none() by {
                                            assert(!this.children().dom().contains(x));
                                        }
                                        assert(child.wf((path@ + pp).push(b)));
                                    }
                                    Some(Self::absorb_prefix(child, merged, Ghost(before), Ghost(b), Ghost(path@)))
                                },
                                None => None,
                            }
                        },
                        None => None,
                    }
                } else {
                    None
                }
            },
        };
        match replacement {
            Some(node) => {
                *self = node;
            },
            None => {},
        }
    }

    /// The single child of a node that is being dissolved, in the form in
    /// which it takes the node's place: a leaf as it is, an internal child
    /// with `merged` in front of its prefix.
    fn absorb_prefix(child: Node<V>, merged: Vec<u8>, parent: Ghost<InternalNode<V>>, under: Ghost<u8>, path: Ghost<Seq<u8>>) -> (node: Node<V>)
        requires
            wf_but_occupancy(parent@, path@),
            parent@.leaf().is_none(),
            parent@.child(under@) == Some(child),
            forall|x: u8| x != under@ ==> parent@.child(x).is_none(),
            merged@ == parent@.prefix().push(under@),
        ensures
            node.wf(path@),
            same_entries(Node::Internal(Box::new(parent@)), node, path@.len() as int),
    {
        let ghost pp = parent@.prefix();
        let ghost b = under@;
        let ghost d = path@.len() as int;
        let ghost below = (path@ + pp).push(b);
        let ghost before = Node::Internal(Box::new(parent@));
        proof {
            assert(child.wf(below));
            assert(below.subrange(0, d) =~= path@);
        }
        match child {
            Node::Leaf(leaf) => {
                proof {
                    let lk = leaf.key_spec();
                    assert(path@.is_prefix_of(lk)) by {
                        assert(lk.subrange(0, d) =~= lk.subrange(0, below.len() as int).subrange(0, d));
                    }
                    assert forall|k: Seq<u8>| #[trigger] Node::Leaf(leaf).lookup(k, d) == before.lookup(k, d) by {
                        reveal_with_fuel(Node::lookup, 2);
                        if k == lk {
                            assert(k.skip(d).take(pp.len() as int) =~= pp) by {
                                assert forall|i: int| 0 <= i < pp.len() implies k[d + i] == pp[i] by {
                                    assert(k.subrange(0, below.len() as int)[d + i] == below[d + i]);
                                }
                            }
                            assert(k[d + pp.len()] == b) by {
                                assert(k.subrange(0, below.len() as int)[d + pp.len()] == below[d + pp.len()]);
                            }
                        }
                    }
                }
                Node::Leaf(leaf)
            },
            Node::Internal(mut inner) => {
                let ghost cp = inner.prefix();
                let ghost old_inner = *inner;
                let mut merged = merged;
                append_bytes(&mut merged, inner.partial_key());
                inner.set_partial_key(merged.as_slice());
                let node = Node::Internal(inner);
                proof {
                    let whole = pp.push(b) + cp;
                    let c = pp.len() as int;
                    assert(path@ + whole =~= below + cp);
                    assert(whole.take(c) =~= pp);
                    assert(whole.skip(c + 1) =~= cp);
                    assert(whole[c] == b);
                    assert forall|x: u8| inner.child(x).is_some() implies (#[trigger] inner.child(x)).unwrap().wf((path@ + inner.prefix()).push(x)) by {
                        assert(old_inner.child(x).is_some());
                    }
                    assert forall|k: Seq<u8>| #[trigger] node.lookup(k, d) == before.lookup(k, d) by {
                        reveal_with_fuel(Node::lookup, 2);
                        if d <= k.len() {
                            lemma_prefix_match_split(whole, k.skip(d), c);
                            if k.len() > d + c {
                                assert(k.skip(d).skip(c + 1) =~= k.skip(d + c + 1));
                                assert(k.skip(d)[c] == k[d + c]);
                            }
                        }
                    }
                }
                node
            },
        }
    }

    /// Takes the leaf for `key` out of this internal node, which holds it
    /// itself, and hands back its key and value. A node that is left with
    /// fewer than two leaves or subtrees is dissolved into what remains.
    pub fn remove_leaf(&mut self, key: &[u8], depth: usize) -> (kv: (Vec<u8>, V))
        requires
            depth <= key@.len(),
            old(self).wf(key@.take(depth as int)),
            holds_leaf_of(*old(self), key@, depth as int),
        ensures
            final(self).wf(key@.take(depth as int)),
            removed(*old(self), *final(self), key@, depth as int),
            kv.0@ == key@,
            old(self).lookup(key@, depth as int) == Some(kv.1),
    {
        let ghost path = key@.take(depth as int);
        let ghost before = *(*old(self))->Internal_0;
        let ghost pp = before.prefix();
        let key_len: usize = key.len();
        proof {
            lemma_match_extends_path(pp, key@, depth as int);
        }
        let leaf: Box<LeafNode<V>> = match self {
            Node::Internal(this) => {
                let below: usize = depth + this.partial_key().len();
                if below == key_len {
                    proof {
                        assert(key@ =~= key@.take(below as int));
                    }
                    match this.take_leaf() {
                        Some(leaf) => leaf,
                        None => unreached(),
                    }
                } else {
                    match this.remove_child(key[below]) {
                        Some(Node::Leaf(leaf)) => leaf,
                        _ => unreached(),
                    }
                }
            },
            Node::Leaf(_) => unreached(),
        };
        proof {
            let mid = *self;
            let inner = mid->Internal_0;
            assert forall|b: u8| inner.child(b).is_some() implies (#[trigger] inner.child(b)).unwrap().wf((path + inner.prefix()).push(b)) by {
                assert(before.child(b).is_some());
            }
            assert(wf_but_occupancy(*inner, path));
            assert forall|k: Seq<u8>| #[trigger] mid.lookup(k, depth as int) == (if k == key@ {
                None
            } else {
                old(self).lookup(k, depth as int)
            }) by {
                reveal_with_fuel(Node::lookup, 2);
                if depth <= k.len() && prefix_match(pp, k.skip(depth as int)) == PrefixMatchResult::Exact {
                    lemma_match_extends_path(pp, k, depth as int);
                }
            }
            assert(old(self).lookup(key@, depth as int) == Some(leaf.value_spec())) by {
                reveal_with_fuel(Node::lookup, 2);
            }
        }
        let ghost mid = *self;
        self.collapse(Ghost(depth as int), Ghost(path));
        proof {
            assert forall|k: Seq<u8>| #[trigger] self.lookup(k, depth as int) == (if k == key@ {
                None
            } else {
                old(self).lookup(k, depth as int)
            }) by {
                assert(self.lookup(k, depth as int) == mid.lookup(k, depth as int));
            }
        }
        leaf.into_kv()
    }
}

} // verus!
