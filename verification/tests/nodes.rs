use artmap::locate::{locate_mut, step_of, Step};
use artmap::map::ARTMap;
use artmap::navigate::SearchArgument;
use artmap::node::handle::{Handle, NodePos};
use artmap::node::internal::{layout_for_count, InternalNode, InternalNodeBase, InternalNodeImpl};
use artmap::node::leaf::LeafNode;
use artmap::node::node48::Node48Children;
use artmap::node::base::PrefixMatchResult;
use artmap::node::{Node, NodeImpl, NodeRef, NodeType};
use artmap::search::SearchResult;

fn leaf(key: &[u8], value: u32) -> Node<u32> {
    Node::Leaf(LeafNode::new(key.to_vec(), value))
}

fn value_of(node: &Node<u32>) -> u32 {
    match node {
        Node::Leaf(leaf) => *leaf.value_ref(),
        Node::Internal(_) => panic!("a leaf was expected"),
    }
}

#[test]
fn layouts_hold_and_return_children() {
    for layout in [NodeType::Node4, NodeType::Node16, NodeType::Node48, NodeType::Node256] {
        let mut children: InternalNodeImpl<u32> = InternalNodeImpl::with_layout(layout);
        assert!(children.node_type() == layout);
        assert!(children.find_child(1).is_none());
        assert!(children.next_child(0).is_none());
        assert!(children.insert_child(9, leaf(b"9", 9)).is_none());
        assert!(children.insert_child(3, leaf(b"3", 3)).is_none());
        assert!(children.set_child(200, leaf(b"x", 200)).is_none());
        assert_eq!(value_of(children.find_child(3).unwrap()), 3);
        assert_eq!(value_of(children.find_child(9).unwrap()), 9);
        assert!(children.find_child(4).is_none());
        assert_eq!(children.next_child(0).map(|(b, _)| b), Some(3));
        assert_eq!(children.next_child(4).map(|(b, _)| b), Some(9));
        assert_eq!(children.next_child(10).map(|(b, _)| b), Some(200));
        assert_eq!(children.next_child(201).map(|(b, _)| b), None);
        assert_eq!(value_of(&children.set_child(9, leaf(b"9", 90)).unwrap()), 9);
        *children.find_child_mut(3).unwrap() = leaf(b"3", 30);
        assert_eq!(value_of(children.find_child(3).unwrap()), 30);
        let idx = children.find(9).unwrap();
        assert_eq!(value_of(children.child_at(idx).unwrap()), 90);
        assert_eq!(value_of(&children.set_child_at(idx, leaf(b"9", 91)).unwrap()), 90);
        assert_eq!(value_of(children.find_child(9).unwrap()), 91);
        assert!(children.find(10).is_none());
        assert_eq!(value_of(&children.remove_child(3).unwrap()), 30);
        assert!(children.remove_child(3).is_none());
        assert!(children.find_child(3).is_none());
        assert_eq!(value_of(children.find_child(200).unwrap()), 200);
    }
}

#[test]
fn layouts_report_overflow_at_their_capacity() {
    for (layout, capacity) in [(NodeType::Node4, 4usize), (NodeType::Node16, 16), (NodeType::Node48, 48)] {
        let mut children: InternalNodeImpl<u32> = InternalNodeImpl::with_layout(layout);
        for i in 0..capacity {
            assert!(children.insert_child(i as u8 * 3, leaf(b"k", i as u32)).is_none());
        }
        let back = children.insert_child(255, leaf(b"over", 77));
        assert_eq!(back.map(|node| value_of(&node)), Some(77));
        assert!(children.find_child(255).is_none());
        // a freed place can be used again
        assert!(children.remove_child(3).is_some());
        assert!(children.insert_child(255, leaf(b"fits", 78)).is_none());
        assert_eq!(value_of(children.find_child(255).unwrap()), 78);
    }
    let mut all: InternalNodeImpl<u32> = InternalNodeImpl::with_layout(NodeType::Node256);
    for i in 0..256usize {
        assert!(all.insert_child(i as u8, leaf(b"k", i as u32)).is_none());
    }
    for i in 0..256usize {
        assert_eq!(value_of(all.find_child(i as u8).unwrap()), i as u32);
    }
}

#[test]
fn into_layout_moves_every_child() {
    let mut children: InternalNodeImpl<u32> = InternalNodeImpl::with_layout(NodeType::Node16);
    for i in 0..10u8 {
        children.set_child(i * 20, leaf(b"k", i as u32));
    }
    for layout in [NodeType::Node48, NodeType::Node256, NodeType::Node16] {
        children = children.into_layout(layout);
        assert!(children.node_type() == layout);
        for i in 0..10u8 {
            assert_eq!(value_of(children.find_child(i * 20).unwrap()), i as u32);
        }
        assert!(children.find_child(1).is_none());
    }
}

#[test]
fn layout_for_count_is_the_smallest_that_fits() {
    let expect = |n: usize| {
        if n <= 4 { NodeType::Node4 } else if n <= 16 { NodeType::Node16 } else if n <= 48 { NodeType::Node48 } else { NodeType::Node256 }
    };
    for n in 0..=256usize {
        assert!(layout_for_count(n) == expect(n));
    }
    assert!(NodeType::Node4.grown() == NodeType::Node16);
    assert!(NodeType::Node16.grown() == NodeType::Node48);
    assert!(NodeType::Node48.grown() == NodeType::Node256);
    assert!(NodeType::Node256.grown() == NodeType::Node256);
}

#[test]
fn internal_node_header() {
    let mut base: InternalNodeBase<u32> = InternalNodeBase::new();
    assert_eq!(base.partial_key(), b"");
    assert!(base.get_leaf().is_none());
    base.set_partial_key(b"prefix");
    assert_eq!(base.get_prefix_size(), 6);
    assert!(base.match_prefix(b"prefix") == PrefixMatchResult::Exact);
    assert!(base.search(b"prefixes") == PrefixMatchResult::Extra);
    assert!(base.match_prefix(b"pre") == PrefixMatchResult::Fail);
    assert!(base.match_prefix(b"prefab") == PrefixMatchResult::Fail);
    assert!(base.set_leaf(LeafNode::new(b"prefix".to_vec(), 1)).is_none());
    assert_eq!(base.set_leaf(LeafNode::new(b"prefix".to_vec(), 2)).map(|l| *l.value_ref()), Some(1));
    *base.get_leaf_mut().unwrap().value_mut() = 3;
    assert_eq!(base.take_leaf().map(|l| *l.value_ref()), Some(3));
    assert!(base.take_leaf().is_none());
    assert!(base.is_prefix_inline());
    base.set_partial_key(&[1u8; 30]);
    assert!(!base.is_prefix_inline());
}

#[test]
fn internal_node_grows_and_shrinks() {
    let mut node: Box<InternalNode<u32>> = InternalNode::new();
    assert!(node.node_type() == NodeType::Node4);
    assert_eq!(node.children_count(), 0);
    for i in 0..49u8 {
        node.insert_child(i, leaf(b"k", i as u32));
        assert_eq!(node.children_count(), i as usize + 1);
    }
    assert!(node.node_type() == NodeType::Node256);
    assert_eq!(node.base().partial_key(), b"");
    assert_eq!(value_of(&node.remove_child(48).unwrap()), 48);
    assert!(node.node_type() == NodeType::Node48);
    assert!(node.remove_child(48).is_none());
    assert_eq!(node.children_count(), 48);
    assert_eq!(value_of(&node.set_child(7, leaf(b"k", 70)).unwrap()), 7);
    assert!(node.set_child(100, leaf(b"k", 100)).is_none());
    assert!(node.node_type() == NodeType::Node256);
    *node.find_child_mut(100).unwrap() = leaf(b"k", 101);
    assert_eq!(value_of(node.find_child(100).unwrap()), 101);
}

#[test]
fn handle_resolves_and_replaces() {
    let mut node: Box<InternalNode<u32>> = InternalNode::new();
    node.set_partial_key(b"ab");
    node.insert_child(b'x', leaf(b"abx", 1));
    node.insert_child(b'y', leaf(b"aby", 2));
    let idx = node.find(b'y').unwrap();
    let mut handle = Handle::new(&mut node, 3, NodePos::Child(idx));
    match handle.resolve_node() {
        Some(NodeImpl::Leaf(leaf)) => {
            assert_eq!(*leaf.value_ref(), 2);
            assert_eq!(leaf.prefix_len(), 6);
        }
        _ => panic!("a leaf hangs there"),
    }
    assert_eq!(handle.replace_node(leaf(b"aby", 20)).map(|n| value_of(&n)), Some(2));
    let mut own = Handle::new(&mut node, 3, NodePos::Leaf);
    assert!(own.resolve_node().is_none());
    assert!(own.replace_node(leaf(b"ab", 9)).is_none());
    match own.resolve_node() {
        Some(NodeImpl::Leaf(leaf)) => {
            assert_eq!(*leaf.value_ref(), 9);
            assert_eq!(leaf.prefix_len(), 5);
            assert_eq!(leaf.partial_key(), b"");
        }
        _ => panic!("the leaf slot is filled"),
    }
    assert_eq!(value_of(node.find_child(b'y').unwrap()), 20);
    assert_eq!(value_of(node.find_child(b'x').unwrap()), 1);
}

fn sample() -> ARTMap<u32> {
    let mut map: ARTMap<u32> = ARTMap::new();
    map.insert(b"team".to_vec(), 1);
    map.insert(b"teams".to_vec(), 2);
    map.insert(b"test".to_vec(), 3);
    map.insert(b"toast".to_vec(), 4);
    map
}

#[test]
fn search_tree_ends_at_the_leaf_or_the_deepest_node() {
    let map = sample();
    let root = map.root_node_ref().unwrap();
    match root.search_tree(b"teams") {
        SearchResult::Found(leaf) => {
            assert_eq!(*leaf.value_ref(), 2);
            assert_eq!(leaf.partial_key(), b"");
        }
        _ => panic!("the key is present"),
    }
    let root = map.root_node_ref().unwrap();
    match root.search_tree(b"tea") {
        SearchResult::NotFound(site) => {
            // the search ends at the node below "tea", whose prefix "m" the key does not reach
            assert_eq!(site.prefix_len(), 3);
            match site.downcast() {
                NodeImpl::Internal(inner) => assert_eq!(inner.partial_key(), b"m"),
                NodeImpl::Leaf(_) => panic!("an internal node is the site"),
            }
        }
        _ => panic!("the key is absent"),
    }
    let root = map.root_node_ref().unwrap();
    match root.search_tree(b"toad") {
        SearchResult::NotFound(site) => match site.downcast() {
            NodeImpl::Leaf(leaf) => assert_eq!(leaf.partial_key(), b"ast"),
            NodeImpl::Internal(_) => panic!("the leaf \"toast\" is the site"),
        },
        _ => panic!("the key is absent"),
    }
}

#[test]
fn search_node_takes_one_step() {
    let map = sample();
    let root: NodeRef<u32> = map.root_node_ref().unwrap();
    match root.search_node(b"test") {
        SearchResult::GoDown(child) => {
            assert_eq!(child.prefix_len(), 2);
            match child.search_node(b"test") {
                SearchResult::GoDown(leaf) => {
                    assert_eq!(leaf.prefix_len(), 3);
                    assert!(matches!(leaf.search_node(b"test"), SearchResult::Found(_)));
                    assert!(matches!(leaf.search_node(b"tesx"), SearchResult::NotFound(_)));
                }
                _ => panic!("the search goes down to the leaf"),
            }
        }
        _ => panic!("the search goes down from the root"),
    }
    let root: NodeRef<u32> = map.root_node_ref().unwrap();
    assert!(matches!(root.search_node(b"x"), SearchResult::NotFound(_)));
    let root: NodeRef<u32> = map.root_node_ref().unwrap();
    assert!(matches!(root.search_node(b"t"), SearchResult::NotFound(_)));
    let root: NodeRef<u32> = map.root_node_ref().unwrap();
    assert!(matches!(root.search_node(b""), SearchResult::NotFound(_)));
}

#[test]
fn descent_stops_at_the_holder_or_the_insertion_site() {
    let mut map = sample();
    let nodes = map.count_nodes();
    {
        let root = map.root_node_mut().unwrap();
        assert!(step_of(root.inner, b"team", 0) == Step::Down(b'e'));
        assert!(step_of(root.inner, b"toast", 0) == Step::Here(true));
        assert!(step_of(root.inner, b"tx", 0) == Step::Here(false));
        let (site, present) = locate_mut(root.inner, b"teams", 0);
        assert!(present);
        // "teams" hangs below the node that has "team" in its leaf slot
        assert_eq!(site.prefix_len, 3);
        let (key, value) = site.inner.remove_leaf(b"teams", 3);
        assert_eq!((key, value), (b"teams".to_vec(), 2));
    }
    assert_eq!(map.get(b"teams"), None);
    assert_eq!(map.get(b"team"), Some(&1));
    assert_eq!(map.count_nodes(), nodes - 2);
    {
        let root = map.root_node_mut().unwrap();
        let (site, present) = locate_mut(root.inner, b"tent", 0);
        assert!(!present);
        assert_eq!(site.prefix_len, 2);
        site.inner.insert_node(b"tent".to_vec(), 9, 2);
        assert_eq!(*site.inner.held_leaf(b"tent", 2).value_ref(), 9);
        *site.inner.held_leaf_mut(b"tent", 2).value_mut() = 10;
    }
    assert_eq!(map.get(b"tent"), Some(&10));
    assert_eq!(map.keys(), vec![b"team".to_vec(), b"tent".to_vec(), b"test".to_vec(), b"toast".to_vec()]);
}

#[test]
fn minimum_leaf_is_the_first_key() {
    let mut map: ARTMap<u32> = ARTMap::new();
    map.insert(b"m".to_vec(), 1);
    assert_eq!(map.lower_bound(b"").map(|l| l.key_ref().clone()), Some(b"m".to_vec()));
    map.insert(b"ma".to_vec(), 2);
    map.insert(b"b".to_vec(), 3);
    assert_eq!(map.lower_bound(b"").map(|l| l.key_ref().clone()), Some(b"b".to_vec()));
    assert_eq!(map.lower_bound(b"c").map(|l| l.key_ref().clone()), Some(b"m".to_vec()));
    assert_eq!(map.lower_bound(b"m\x00").map(|l| l.key_ref().clone()), Some(b"ma".to_vec()));
}

#[test]
fn search_argument_gives_what_is_left_of_the_key() {
    let arg = SearchArgument { key: b"search", depth: 2 };
    assert_eq!(arg.partial_key(), b"arch");
    assert_eq!(arg.depth(), 2);
    assert_eq!(SearchArgument { key: b"ab", depth: 2 }.partial_key(), b"");
    assert_eq!(SearchArgument { key: b"ab", depth: 5 }.partial_key(), b"");
}

#[test]
fn prev_child_walks_backwards() {
    for layout in [NodeType::Node4, NodeType::Node16, NodeType::Node48, NodeType::Node256] {
        let mut children: InternalNodeImpl<u32> = InternalNodeImpl::with_layout(layout);
        assert!(children.prev_child(255).is_none());
        for b in [0u8, 7, 200] {
            children.set_child(b, leaf(b"k", b as u32));
        }
        assert_eq!(children.prev_child(255).map(|(b, _)| b), Some(200));
        assert_eq!(children.prev_child(200).map(|(b, _)| b), Some(200));
        assert_eq!(children.prev_child(199).map(|(b, _)| b), Some(7));
        assert_eq!(children.prev_child(6).map(|(b, _)| b), Some(0));
        assert_eq!(children.prev_child(0).map(|(b, c)| (b, value_of(c))), Some((0, 0)));
        children.remove_child(0);
        assert_eq!(children.prev_child(6).map(|(b, _)| b), None);
    }
}

#[test]
fn node_references_carry_their_depth() {
    let map = sample();
    let root: NodeRef<u32> = map.root_node_ref().unwrap();
    assert_eq!(root.prefix_len(), 0);
    let copy = root;
    match root.downcast() {
        NodeImpl::Internal(inner) => {
            assert_eq!(inner.prefix_len(), 0);
            assert_eq!(inner.partial_key(), b"t");
            assert!(inner.get_leaf().is_none());
            assert!(inner.find_child(b'x').is_none());
            let below = inner.find_child(b'o').unwrap();
            assert_eq!(below.prefix_len(), 2);
            match below.downcast() {
                NodeImpl::Leaf(leaf) => {
                    assert_eq!(leaf.prefix_len(), 2);
                    assert_eq!(leaf.partial_key(), b"ast");
                    assert_eq!(*leaf.value_ref(), 4);
                }
                NodeImpl::Internal(_) => panic!("\"toast\" hangs below 'o'"),
            }
            let (byte, next) = inner.find_next_child(b'f').unwrap();
            assert_eq!((byte, next.prefix_len()), (b'o', 2));
            let (byte, _) = inner.find_next_child(0).unwrap();
            assert_eq!(byte, b'e');
            assert!(inner.find_next_child(b'p').is_none());
            let back = inner.forget_type();
            assert!(matches!(back.search_node(b"toast"), SearchResult::GoDown(_)));
            assert_eq!(back.prefix_len(), 0);
        }
        NodeImpl::Leaf(_) => panic!("the root is internal"),
    }
}

#[test]
fn leaf_slot_reference_sits_one_prefix_below_its_node() {
    let mut map: ARTMap<u32> = ARTMap::new();
    map.insert(b"go".to_vec(), 1);
    map.insert(b"gone".to_vec(), 2);
    match map.root_node_ref().unwrap().downcast() {
        NodeImpl::Internal(inner) => {
            let own = inner.get_leaf().unwrap();
            assert_eq!(own.prefix_len(), 2);
            assert_eq!(own.partial_key(), b"");
            assert_eq!(*own.value_ref(), 1);
        }
        NodeImpl::Leaf(_) => panic!("the root is internal"),
    }
}

#[test]
fn exclusive_reference_reborrows() {
    let mut map = sample();
    let mut root = map.root_node_mut().unwrap();
    assert_eq!(root.reborrow().prefix_len(), 0);
    assert!(matches!(root.reborrow().search_tree(b"test"), SearchResult::Found(_)));
    {
        let again = root.reborrow_mut();
        let (site, present) = locate_mut(again.inner, b"toast", 0);
        assert!(present);
        *site.inner.held_leaf_mut(b"toast", site.prefix_len).value_mut() = 44;
    }
    assert!(matches!(root.reborrow().search_tree(b"toast"), SearchResult::Found(leaf) if *leaf.value_ref() == 44));
    assert_eq!(map.get(b"toast"), Some(&44));
}

#[test]
fn node48_takes_the_first_free_slot() {
    let mut children: Node48Children<u32> = Node48Children::new();
    for i in 0..10u8 {
        assert!(children.insert_child(100 + i, leaf(b"k", i as u32)).is_none());
        assert_eq!(children.find(100 + i), Some(i as usize));
    }
    assert!(children.remove_child(103).is_some());
    assert!(children.remove_child(107).is_some());
    assert!(children.child_at(3).is_none());
    assert!(children.insert_child(5, leaf(b"k", 50)).is_none());
    assert_eq!(children.find(5), Some(3));
    assert!(children.set_child(6, leaf(b"k", 60)).is_none());
    assert_eq!(children.find(6), Some(7));
    assert!(children.insert_child(7, leaf(b"k", 70)).is_none());
    assert_eq!(children.find(7), Some(10));
    assert_eq!(value_of(children.child_at(3).unwrap()), 50);
    assert_eq!(children.next_child(0).map(|(b, _)| b), Some(5));
}
