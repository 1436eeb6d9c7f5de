//! Putting a new key into the tree at the node where the search for it
//! ended.

use vstd::prelude::*;
use crate::node::base::{lemma_common_len_decides_match, lemma_match_extends_path, lemma_prefix_match_split, prefix_match, PrefixMatchResult};
use crate::node::internal::InternalNode;
use crate::node::leaf::LeafNode;
use crate::node::Node;
use crate::remove::holds_leaf_of;
use crate::util::{common_len_at, is_common_len, to_vec};

verus! {

/// The search for `key` ends at `node` without finding it: `node` is the
/// place where the key has to go in.
pub open spec fn is_insertion_site<V>(node: Node<V>, key: Seq<u8>, depth: int) -> bool {
    match node {
        Node::Leaf(leaf) => leaf.key_spec() != key,
        Node::Internal(inner) => match prefix_match(inner.prefix(), key.skip(depth)) {
            PrefixMatchResult::Fail => true,
            PrefixMatchResult::Exact => inner.leaf().is_none(),
            PrefixMatchResult::Extra => inner.child(key[depth + inner.prefix().len()]).is_none(),
        },
    }
}

/// `after` holds what `before` holds and, in addition, `value` under `key`.
pub open spec fn inserted<V>(before: Node<V>, after: Node<V>, key: Seq<u8>, value: V, depth: int) -> bool {
    forall|k: Seq<u8>| #[trigger] after.lookup(k, depth) == (if k == key {
        Some(value)
    } else {
        before.lookup(k, depth)
    })
}

impl<V> Node<V> {
    /// Replaces the leaf at this place by a new internal node that holds
    /// the old leaf and a new leaf for `key`. The node's prefix is what the
    /// two keys share below `depth`.
    fn split_leaf(&mut self, key: Vec<u8>, value: V, depth: usize)
        requires
            *old(self) is Leaf,
            depth <= key@.len(),
            old(self).wf(key@.take(depth as int)),
            is_insertion_site(*old(self), key@, depth as int),
        ensures
            final(self).wf(key@.take(depth as int)),
            inserted(*old(self), *final(self), key@, value, depth as int),
            holds_leaf_of(*final(self), key@, depth as int),
    {
        let ghost path = key@.take(depth as int);
        let ghost old_leaf = *(*old(self))->Leaf_0;
        let key_len: usize = key.len();
        let mut new_parent = InternalNode::new();
        let common_key_len = match self {
            Node::Leaf(leaf) => common_len_at(leaf.key_ref().as_slice(), depth, key.as_slice(), depth),
            Node::Internal(_) => 0,
        };
        let split_at: usize = depth + common_key_len;
        new_parent.set_partial_key(vstd::slice::slice_subrange(key.as_slice(), depth, split_at));
        let ghost prefix = key@.subrange(depth as int, split_at as int);
        proof {
            let lk = old_leaf.key_spec();
            assert(lk.take(depth as int) =~= path);
            assert(lk.skip(depth as int).take(common_key_len as int) =~= lk.subrange(depth as int, split_at as int));
            assert(key@.skip(depth as int).take(common_key_len as int) =~= prefix);
            assert(path + prefix =~= key@.take(split_at as int));
            assert(path + prefix =~= lk.take(split_at as int));
            if split_at == lk.len() && split_at == key@.len() {
                assert(lk =~= lk.take(split_at as int));
                assert(key@ =~= key@.take(split_at as int));
            }
        }
        let mut node = Node::Internal(new_parent);
        core::mem::swap(self, &mut node);
        match self {
            Node::Internal(parent) => {
                match node {
                    Node::Leaf(leaf) => {
                        if split_at == leaf.key_ref().len() {
                            proof {
                                assert(old_leaf.key_spec() =~= path + prefix);
                            }
                            parent.set_leaf(leaf);
                        } else {
                            let k = leaf.key_ref()[split_at];
                            proof {
                                assert((path + prefix).push(k) =~= old_leaf.key_spec().take(split_at + 1));
                            }
                            parent.insert_child(k, Node::Leaf(leaf));
                        }
                    },
                    Node::Internal(_) => {},
                }
                if split_at == key.len() {
                    proof {
                        assert(key@ =~= path + prefix);
                    }
                    let new_leaf = LeafNode::new(key, value);
                    parent.set_leaf(new_leaf);
                } else {
                    let k = key[split_at];
                    proof {
                        assert((path + prefix).push(k) =~= key@.take(split_at + 1));
                        let lk = old_leaf.key_spec();
                        if split_at < lk.len() {
                            assert(lk.skip(depth as int)[common_key_len as int] == lk[split_at as int]);
                            assert(key@.skip(depth as int)[common_key_len as int] == key@[split_at as int]);
                        }
                    }
                    let new_leaf = LeafNode::new(key, value);
                    parent.insert_child(k, Node::Leaf(new_leaf));
                }
            },
            Node::Leaf(_) => {},
        }
        proof {
            let after = *self;
            let inner = after->Internal_0;
            assert(inner.prefix() == prefix);
            assert(inner.wf());
            assert(inner.occupancy() >= 2);
            assert(inner.leaf() matches Some(leaf) ==> leaf.key_spec() == path + inner.prefix());
            assert forall|b: u8| inner.child(b).is_some() implies (#[trigger] inner.child(b)).unwrap().wf((path + inner.prefix()).push(b)) by {
            }
            assert forall|k: Seq<u8>| #[trigger] after.lookup(k, depth as int) == (if k == key@ {
                Some(value)
            } else {
                old(self).lookup(k, depth as int)
            }) by {
                reveal_with_fuel(Node::lookup, 2);
                let lk = old_leaf.key_spec();
                if k == key@ || k == lk {
                    assert(k.skip(depth as int).take(common_key_len as int) =~= prefix);
                }
            }
        }
    }

    /// Puts a new internal node in the place of this one, whose partial
    /// prefix leaves the key's path after `common` bytes. The new node keeps
    /// the shared bytes as its prefix and holds this node, under the byte at
    /// which the prefix goes its own way and with what follows that byte as
    /// its prefix, and a new leaf for `key`.
    fn split_prefix(&mut self, key: Vec<u8>, value: V, depth: usize, common: usize)
        requires
            *old(self) is Internal,
            depth <= key@.len(),
            old(self).wf(key@.take(depth as int)),
            is_common_len(old(self)->Internal_0.prefix(), key@.skip(depth as int), common as int),
            common < old(self)->Internal_0.prefix().len(),
        ensures
            final(self).wf(key@.take(depth as int)),
            inserted(*old(self), *final(self), key@, value, depth as int),
            holds_leaf_of(*final(self), key@, depth as int),
    {
        let ghost path = key@.take(depth as int);
        let ghost before = *(*old(self))->Internal_0;
        let ghost pp = before.prefix();
        let ghost c = common as int;
        let key_len: usize = key.len();
        let split_at: usize = depth + common;
        let mut node = Node::Internal(InternalNode::new());
        core::mem::swap(self, &mut node);
        match self {
            Node::Internal(parent) => {
                match node {
                    Node::Internal(mut this) => {
                        let this_partial_key = to_vec(this.partial_key());
                        parent.set_partial_key(vstd::slice::slice_subrange(this_partial_key.as_slice(), 0, common));
                        let prefix_len: usize = this_partial_key.len();
                        let new_k = this_partial_key[common];
                        this.set_partial_key(vstd::slice::slice_subrange(this_partial_key.as_slice(), common + 1, prefix_len));
                        proof {
                            let below = (path + pp.take(c)).push(new_k);
                            assert(pp.subrange(c + 1, pp.len() as int) =~= pp.skip(c + 1));
                            assert(pp.subrange(0, c) =~= pp.take(c));
                            assert(below + pp.skip(c + 1) =~= path + pp);
                            assert(Node::Internal(this).wf(below)) by {
                                assert forall|b: u8| this.child(b).is_some() implies (#[trigger] this.child(b)).unwrap().wf((below + this.prefix()).push(b)) by {
                                    assert(before.child(b).is_some());
                                }
                            }
                        }
                        parent.insert_child(new_k, Node::Internal(this));
                    },
                    Node::Leaf(_) => {},
                }
                proof {
                    assert(key@.skip(depth as int).take(c) =~= key@.subrange(depth as int, split_at as int));
                    assert(path + pp.take(c) =~= key@.take(split_at as int));
                }
                if split_at == key_len {
                    proof {
                        assert(key@ =~= path + pp.take(c));
                    }
                    let new_leaf_node = LeafNode::new(key, value);
                    parent.set_leaf(new_leaf_node);
                } else {
                    let new_k = key[split_at];
                    proof {
                        assert(key@.skip(depth as int)[c] == key@[split_at as int]);
                        assert((path + pp.take(c)).push(new_k) =~= key@.take(split_at + 1));
                    }
                    let new_leaf_node = LeafNode::new(key, value);
                    parent.insert_child(new_k, Node::Leaf(new_leaf_node));
                }
            },
            Node::Leaf(_) => {},
        }
        proof {
            let after = *self;
            let inner = after->Internal_0;
            assert(inner.prefix() == pp.take(c));
            assert(inner.occupancy() >= 2);
            assert(inner.leaf() matches Some(leaf) ==> leaf.key_spec() == path + inner.prefix());
            assert forall|b: u8| inner.child(b).is_some() implies (#[trigger] inner.child(b)).unwrap().wf((path + inner.prefix()).push(b)) by {
            }
            assert forall|k: Seq<u8>| #[trigger] after.lookup(k, depth as int) == (if k == key@ {
                Some(value)
            } else {
                old(self).lookup(k, depth as int)
            }) by {
                reveal_with_fuel(Node::lookup, 2);
                if depth <= k.len() {
                    lemma_prefix_match_split(pp, k.skip(depth as int), c);
                    if k.len() > split_at {
                        assert(k.skip(depth as int).skip(c + 1) =~= k.skip(depth + c + 1));
                        assert(k.skip(depth as int)[c] == k[split_at as int]);
                    }
                    if k == key@ {
                        assert(k.skip(depth as int).take(c) == pp.take(c));
                    }
                }
            }
        }
    }

    /// Adds a new leaf for `key` to this internal node, on whose partial
    /// prefix the key goes on: under the next key byte, or in the node's
    /// leaf slot when the key ends here.
    fn attach_leaf(&mut self, key: Vec<u8>, value: V, depth: usize)
        requires
            *old(self) is Internal,
            depth <= key@.len(),
            old(self).wf(key@.take(depth as int)),
            is_insertion_site(*old(self), key@, depth as int),
            prefix_match(old(self)->Internal_0.prefix(), key@.skip(depth as int)) != PrefixMatchResult::Fail,
        ensures
            final(self).wf(key@.take(depth as int)),
            inserted(*old(self), *final(self), key@, value, depth as int),
            holds_leaf_of(*final(self), key@, depth as int),
    {
        let ghost path = key@.take(depth as int);
        let ghost before = *(*old(self))->Internal_0;
        let ghost pp = before.prefix();
        let key_len: usize = key.len();
        proof {
            lemma_match_extends_path(pp, key@, depth as int);
        }
        match self {
            Node::Internal(this) => {
                let below: usize = depth + this.partial_key().len();
                if below == key_len {
                    proof {
                        assert(key@ =~= key@.take(below as int));
                    }
                    let new_leaf_node = LeafNode::new(key, value);
                    this.set_leaf(new_leaf_node);
                } else {
                    let new_k = key[below];
                    let new_leaf_node = LeafNode::new(key, value);
                    this.insert_child(new_k, Node::Leaf(new_leaf_node));
                }
            },
            Node::Leaf(_) => {},
        }
        proof {
            let after = *self;
            let inner = after->Internal_0;
            assert(inner.occupancy() >= 2);
            assert forall|b: u8| inner.child(b).is_some() implies (#[trigger] inner.child(b)).unwrap().wf((path + inner.prefix()).push(b)) by {
                if before.child(b).is_some() {
                    assert(before.child(b).unwrap().wf((path + pp).push(b)));
                }
            }
            assert forall|k: Seq<u8>| #[trigger] after.lookup(k, depth as int) == (if k == key@ {
                Some(value)
            } else {
                old(self).lookup(k, depth as int)
            }) by {
                reveal_with_fuel(Node::lookup, 2);
                if depth <= k.len() && prefix_match(pp, k.skip(depth as int)) == PrefixMatchResult::Exact {
                    lemma_match_extends_path(pp, k, depth as int);
                    if k.take(depth as int) == path {
                        assert(k =~= k.take(k.len() as int));
                        assert(key@ =~= key@.take(key@.len() as int));
                    }
                }
            }
        }
    }

    /// Inserts `key` with `value` at this node, where the search for the
    /// key ended without finding it.
    ///
    /// A leaf is replaced by a new internal node that holds it and the new
    /// leaf. An internal node whose prefix the key leaves is split at that
    /// point; one whose prefix the key follows gets the new leaf as a child
    /// or, when the key ends at the node, in its leaf slot.
    pub fn insert_node(&mut self, key: Vec<u8>, value: V, depth: usize)
        requires
            depth <= key@.len(),
            old(self).wf(key@.take(depth as int)),
            is_insertion_site(*old(self), key@, depth as int),
        ensures
            final(self).wf(key@.take(depth as int)),
            inserted(*old(self), *final(self), key@, value, depth as int),
            holds_leaf_of(*final(self), key@, depth as int),
    {
        let common: Option<(usize, usize)> = match self {
            Node::Leaf(_) => None,
            Node::Internal(this) => {
                let this_partial_key = this.partial_key();
                Some((common_len_at(this_partial_key, 0, key.as_slice(), depth), this_partial_key.len()))
            },
        };
        match common {
            None => self.split_leaf(key, value, depth),
            Some((common_key_len, prefix_len)) => {
                proof {
                    let pp = (*old(self))->Internal_0.prefix();
                    assert(pp.skip(0) =~= pp);
                    lemma_common_len_decides_match(pp, key@.skip(depth as int), common_key_len as int);
                }
                if common_key_len < prefix_len {
                    self.split_prefix(key, value, depth, common_key_len)
                } else {
                    self.attach_leaf(key, value, depth)
                }
            },
        }
    }
}

} // verus!
