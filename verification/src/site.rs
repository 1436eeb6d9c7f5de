//! The place in the tree that an entry points at, and what can be done
//! there.
//!
//! A place is either the map's root slot or a node further down, held with
//! exclusive access. What the whole map will hold once the place has been
//! rewritten is told by a `Frame`: the part of the map that lies outside
//! the place, which does not change.

use vstd::prelude::*;
use vstd::pervasive::unreached;
use either::Either;
use crate::insert::{inserted, is_insertion_site};
use crate::locate::{leaf_rewritten, locate_mut, NodeMut};
use crate::node::base::{lemma_match_extends_path, prefix_match, PrefixMatchResult};
use crate::node::leaf::LeafNode;
use crate::node::Node;
use crate::remove::holds_leaf_of;
use crate::util::{suffix_eq, to_vec};

verus! {

/// Declares the type `either::Either` of the `either` crate. The enum is
/// taken as that crate defines it, with its two variants `Left` and `Right`
/// and the one field of each; nothing else is assumed of it, and none of the
/// crate's functions is called.
#[verifier::external_type_specification]
#[verifier::reject_recursive_types(L)]
#[verifier::reject_recursive_types(R)]
pub struct ExEither<L, R>(Either<L, R>);

/// A tree without a root is well formed; one with a root is well formed
/// when the root is, with no key bytes leading to it.
pub open spec fn root_wf<V>(root: Option<Node<V>>) -> bool {
    root matches Some(node) ==> node.wf(Seq::empty())
}

/// The value that the tree below `root` holds under `key`.
pub open spec fn root_lookup<V>(root: Option<Node<V>>, key: Seq<u8>) -> Option<V> {
    match root {
        Some(node) => node.lookup(key, 0),
        None => None,
    }
}

/// The keys and values of the tree below `root`.
pub open spec fn root_view<V>(root: Option<Node<V>>) -> Map<Seq<u8>, V> {
    Map::new(|key: Seq<u8>| root_lookup(root, key).is_some(), |key: Seq<u8>| root_lookup(root, key).unwrap())
}

/// What stays fixed about a place while it is rewritten: whether it is the
/// root slot, how deep below the root it lies, the key it was reached for,
/// and what the map holds outside it.
pub struct Frame<V> {
    pub at_root: bool,
    pub depth: int,
    pub key: Seq<u8>,
    pub outside: Map<Seq<u8>, V>,
}

impl<V> Frame<V> {
    /// The key bytes that lead to the place.
    pub open spec fn path(self) -> Seq<u8> {
        self.key.take(self.depth)
    }

    /// Whether the place is well formed when the root slot holds `slot` and
    /// the node holds `node`.
    pub open spec fn wf_given(self, slot: Option<Node<V>>, node: Node<V>) -> bool {
        if self.at_root {
            root_wf(slot)
        } else {
            node.wf(self.path())
        }
    }

    /// What the place answers for `key` when the root slot holds `slot` and
    /// the node holds `node`.
    pub open spec fn lookup_given(self, slot: Option<Node<V>>, node: Node<V>, key: Seq<u8>) -> Option<V> {
        if self.at_root {
            root_lookup(slot, key)
        } else if self.path().is_prefix_of(key) {
            node.lookup(key, self.depth)
        } else if self.outside.contains_key(key) {
            Some(self.outside[key])
        } else {
            None
        }
    }

    /// What the whole map holds when the root slot holds `slot` and the node
    /// holds `node`: inside the place what is found there, outside it what
    /// was there before.
    pub open spec fn map_given(self, slot: Option<Node<V>>, node: Node<V>) -> Map<Seq<u8>, V> {
        Map::new(
            |key: Seq<u8>| self.lookup_given(slot, node, key).is_some(),
            |key: Seq<u8>| self.lookup_given(slot, node, key).unwrap(),
        )
    }
}

/// The root slot that a place refers to, when it is the root slot.
pub open spec fn site_slot<'a, V>(site: Either<&'a mut Option<Node<V>>, NodeMut<'a, V>>) -> &'a mut Option<Node<V>> {
    match site {
        Either::Left(slot) => slot,
        Either::Right(_) => arbitrary(),
    }
}

/// The node that a place refers to, when it is a node.
pub open spec fn site_node<'a, V>(site: Either<&'a mut Option<Node<V>>, NodeMut<'a, V>>) -> &'a mut Node<V> {
    match site {
        Either::Left(_) => arbitrary(),
        Either::Right(node) => node.inner,
    }
}

/// The frame of a place that was reached for `key` in a map that holds
/// `outside`.
pub open spec fn frame_of<'a, V>(site: Either<&'a mut Option<Node<V>>, NodeMut<'a, V>>, key: Seq<u8>, outside: Map<Seq<u8>, V>) -> Frame<V> {
    match site {
        Either::Left(_) => Frame { at_root: true, depth: 0, key, outside },
        Either::Right(node) => Frame { at_root: false, depth: node.prefix_len as int, key, outside },
    }
}

/// A place is in order for `key`: it is well formed, and it is where the key
/// is held, if the key is present, or where it has to go in, if it is not.
///
/// The root slot is the place for a key only when the tree is empty or its
/// root is the key's own leaf.
pub open spec fn site_wf<'a, V>(site: Either<&'a mut Option<Node<V>>, NodeMut<'a, V>>, key: Seq<u8>, present: bool) -> bool {
    match site {
        Either::Left(slot) => if present {
            *slot matches Some(Node::Leaf(leaf)) && leaf.key_spec() == key
        } else {
            *slot is None
        },
        Either::Right(node) => {
            &&& node.prefix_len <= key.len()
            &&& node.inner.wf(key.take(node.prefix_len as int))
            &&& if present {
                holds_leaf_of(*node.inner, key, node.prefix_len as int)
            } else {
                is_insertion_site(*node.inner, key, node.prefix_len as int)
            }
        },
    }
}

/// The key of a place is present exactly when the place says so, and the
/// place is well formed as it stands.
pub proof fn lemma_site_wf<'a, V>(site: Either<&'a mut Option<Node<V>>, NodeMut<'a, V>>, key: Seq<u8>, present: bool, outside: Map<Seq<u8>, V>)
    requires
        site_wf(site, key, present),
    ensures
        frame_of(site, key, outside).wf_given(*site_slot(site), *site_node(site)),
        frame_of(site, key, outside).lookup_given(*site_slot(site), *site_node(site), key).is_some() == present,
        frame_of(site, key, outside).path().is_prefix_of(key),
{
    reveal_with_fuel(Node::lookup, 2);
    match site {
        Either::Left(slot) => {
            assert(Seq::<u8>::empty().is_prefix_of(key));
        },
        Either::Right(node) => {
            let d = node.prefix_len as int;
            assert(key.take(d).is_prefix_of(key));
            match *node.inner {
                Node::Leaf(_) => {},
                Node::Internal(inner) => {
                    if prefix_match(inner.prefix(), key.skip(d)) != PrefixMatchResult::Fail {
                        lemma_match_extends_path(inner.prefix(), key, d);
                        assert(key.take(key.len() as int) =~= key);
                    }
                },
            }
        },
    }
}

/// Finds the place for `key` in the tree below `root` and hands out
/// exclusive access to it, with the flag that tells whether the key is
/// present.
///
/// What the tree holds once the place has been rewritten is what the
/// place's frame tells, provided the place ends well formed.
pub fn locate_root<'a, V>(root: &'a mut Option<Node<V>>, key: &[u8]) -> (found: (Either<&'a mut Option<Node<V>>, NodeMut<'a, V>>, bool))
    requires
        root_wf(*old(root)),
    ensures
        site_wf(found.0, key@, found.1),
        found.1 == root_view(*old(root)).contains_key(key@),
        frame_of(found.0, key@, root_view(*old(root))).map_given(*site_slot(found.0), *site_node(found.0)) =~= root_view(*old(root)),
        frame_of(found.0, key@, root_view(*old(root))).wf_given(*final(site_slot(found.0)), *final(site_node(found.0))) ==> {
            &&& root_wf(*final(root))
            &&& root_view(*final(root)) =~= frame_of(found.0, key@, root_view(*old(root))).map_given(
                *final(site_slot(found.0)),
                *final(site_node(found.0)),
            )
        },
{
    let ghost before = *root;
    let ghost outside = root_view(before);
    let at_root: (bool, bool) = match root {
        None => (true, false),
        Some(Node::Leaf(leaf)) => {
            let same = suffix_eq(key, 0, leaf.key_ref().as_slice(), 0);
            proof {
                assert(key@.skip(0) =~= key@);
                assert(leaf.key_spec().skip(0) =~= leaf.key_spec());
            }
            (same, same)
        },
        Some(Node::Internal(_)) => (false, false),
    };
    if at_root.0 {
        (Either::Left(root), at_root.1)
    } else {
        match root {
            Some(node) => {
                proof {
                    assert(key@.take(0) =~= Seq::<u8>::empty());
                }
                let (site, present) = locate_mut(node, key, 0);
                (Either::Right(site), present)
            },
            None => unreached(),
        }
    }
}

/// The value stored under `key` at its place.
pub(crate) fn site_value<'b, 'a, V>(site: &'b Either<&'a mut Option<Node<V>>, NodeMut<'a, V>>, key: &[u8], outside: Ghost<Map<Seq<u8>, V>>) -> (value: &'b V)
    requires
        site_wf(*site, key@, true),
    ensures
        frame_of(*site, key@, outside@).lookup_given(*site_slot(*site), *site_node(*site), key@) == Some(*value),
{
    proof {
        lemma_site_wf(*site, key@, true, outside@);
    }
    match site {
        Either::Left(slot) => match &**slot {
            Some(Node::Leaf(leaf)) => leaf.value_ref(),
            _ => unreached(),
        },
        Either::Right(node) => node.inner.held_leaf(key, node.prefix_len).value_ref(),
    }
}

/// Exclusive access to the value stored under `key` at its place, for as
/// long as the place itself is borrowed.
pub(crate) fn site_value_mut<'b, 'a, V>(site: &'b mut Either<&'a mut Option<Node<V>>, NodeMut<'a, V>>, key: &[u8], outside: Ghost<Map<Seq<u8>, V>>) -> (value: &'b mut V)
    requires
        site_wf(*old(site), key@, true),
    ensures
        frame_of(*old(site), key@, outside@).lookup_given(*site_slot(*old(site)), *site_node(*old(site)), key@) == Some(*value),
        site_wf(*final(site), key@, true),
        frame_of(*final(site), key@, outside@) == frame_of(*old(site), key@, outside@),
        *final(site_slot(*final(site))) == *final(site_slot(*old(site))),
        *final(site_node(*final(site))) == *final(site_node(*old(site))),
        frame_of(*final(site), key@, outside@).map_given(*site_slot(*final(site)), *site_node(*final(site)))
            =~= frame_of(*old(site), key@, outside@).map_given(*site_slot(*old(site)), *site_node(*old(site))).insert(key@, *final(value)),
{
    proof {
        lemma_site_wf(*site, key@, true, outside@);
    }
    match site {
        Either::Left(slot) => match &mut **slot {
            Some(Node::Leaf(leaf)) => leaf.value_mut(),
            _ => unreached(),
        },
        Either::Right(node) => node.inner.held_leaf_mut(key, node.prefix_len).value_mut(),
    }
}

/// Exclusive access to the value stored under `key` at its place, for as
/// long as the place lives.
pub(crate) fn site_into_value_mut<'a, V>(site: Either<&'a mut Option<Node<V>>, NodeMut<'a, V>>, key: &[u8], outside: Ghost<Map<Seq<u8>, V>>) -> (value: &'a mut V)
    requires
        site_wf(site, key@, true),
    ensures
        frame_of(site, key@, outside@).lookup_given(*site_slot(site), *site_node(site), key@) == Some(*value),
        frame_of(site, key@, outside@).wf_given(*final(site_slot(site)), *final(site_node(site))),
        frame_of(site, key@, outside@).map_given(*final(site_slot(site)), *final(site_node(site)))
            =~= frame_of(site, key@, outside@).map_given(*site_slot(site), *site_node(site)).insert(key@, *final(value)),
{
    proof {
        lemma_site_wf(site, key@, true, outside@);
    }
    match site {
        Either::Left(slot) => match slot {
            Some(Node::Leaf(leaf)) => leaf.value_mut(),
            _ => unreached(),
        },
        Either::Right(node) => node.inner.held_leaf_mut(key, node.prefix_len).value_mut(),
    }
}

/// Puts `key` with `value` in at its place, where the key is not present
/// yet.
pub(crate) fn site_put<'a, V>(site: Either<&'a mut Option<Node<V>>, NodeMut<'a, V>>, key: Vec<u8>, value: V, outside: Ghost<Map<Seq<u8>, V>>)
    requires
        site_wf(site, key@, false),
    ensures
        frame_of(site, key@, outside@).wf_given(*final(site_slot(site)), *final(site_node(site))),
        frame_of(site, key@, outside@).map_given(*final(site_slot(site)), *final(site_node(site)))
            =~= frame_of(site, key@, outside@).map_given(*site_slot(site), *site_node(site)).insert(key@, value),
{
    proof {
        lemma_site_wf(site, key@, false, outside@);
    }
    match site {
        Either::Left(slot) => {
            proof {
                assert(Seq::<u8>::empty().is_prefix_of(key@));
            }
            *slot = Some(Node::Leaf(LeafNode::new(key, value)));
        },
        Either::Right(node) => {
            node.inner.insert_node(key, value, node.prefix_len);
        },
    }
}

/// Puts `key` with `value` in at its place, where the key is not present
/// yet, and hands out exclusive access to the value in the tree.
pub(crate) fn site_insert<'a, V>(site: Either<&'a mut Option<Node<V>>, NodeMut<'a, V>>, key: Vec<u8>, value: V, outside: Ghost<Map<Seq<u8>, V>>) -> (stored: &'a mut V)
    requires
        site_wf(site, key@, false),
    ensures
        *stored == value,
        frame_of(site, key@, outside@).wf_given(*final(site_slot(site)), *final(site_node(site))),
        frame_of(site, key@, outside@).map_given(*final(site_slot(site)), *final(site_node(site)))
            =~= frame_of(site, key@, outside@).map_given(*site_slot(site), *site_node(site)).insert(key@, *final(stored)),
{
    proof {
        lemma_site_wf(site, key@, false, outside@);
    }
    match site {
        Either::Left(slot) => {
            proof {
                assert(Seq::<u8>::empty().is_prefix_of(key@));
            }
            *slot = Some(Node::Leaf(LeafNode::new(key, value)));
            match slot {
                Some(Node::Leaf(leaf)) => leaf.value_mut(),
                _ => unreached(),
            }
        },
        Either::Right(node) => {
            let probe = to_vec(key.as_slice());
            let ghost before = *node.inner;
            node.inner.insert_node(key, value, node.prefix_len);
            proof {
                reveal_with_fuel(Node::lookup, 2);
                let mid = *node.inner;
                assert(mid.lookup(probe@, node.prefix_len as int) == Some(value));
                assert forall|after: Node<V>, leaf: LeafNode<V>|
                    leaf.key_spec() == probe@ && #[trigger] leaf_rewritten(mid, after, probe@, node.prefix_len as int, leaf)
                    implies inserted(before, after, probe@, leaf.value_spec(), node.prefix_len as int) by {
                    assert forall|k: Seq<u8>| #[trigger] after.lookup(k, node.prefix_len as int) == (if k == probe@ {
                        Some(leaf.value_spec())
                    } else {
                        before.lookup(k, node.prefix_len as int)
                    }) by {
                        assert(mid.lookup(k, node.prefix_len as int) == (if k == probe@ {
                            Some(value)
                        } else {
                            before.lookup(k, node.prefix_len as int)
                        }));
                    }
                }
            }
            node.inner.held_leaf_mut(probe.as_slice(), node.prefix_len).value_mut()
        },
    }
}

/// Takes `key`, which is present, out at its place and hands back the key
/// and its value.
pub(crate) fn site_remove<'a, V>(site: Either<&'a mut Option<Node<V>>, NodeMut<'a, V>>, key: &[u8], outside: Ghost<Map<Seq<u8>, V>>) -> (kv: (Vec<u8>, V))
    requires
        site_wf(site, key@, true),
    ensures
        kv.0@ == key@,
        frame_of(site, key@, outside@).lookup_given(*site_slot(site), *site_node(site), key@) == Some(kv.1),
        frame_of(site, key@, outside@).wf_given(*final(site_slot(site)), *final(site_node(site))),
        frame_of(site, key@, outside@).map_given(*final(site_slot(site)), *final(site_node(site)))
            =~= frame_of(site, key@, outside@).map_given(*site_slot(site), *site_node(site)).remove(key@),
{
    proof {
        lemma_site_wf(site, key@, true, outside@);
    }
    match site {
        Either::Left(slot) => {
            let mut taken: Option<Node<V>> = None;
            core::mem::swap(slot, &mut taken);
            match taken {
                Some(Node::Leaf(leaf)) => leaf.into_kv(),
                _ => unreached(),
            }
        },
        Either::Right(node) => node.inner.remove_leaf(key, node.prefix_len),
    }
}

} // verus!
