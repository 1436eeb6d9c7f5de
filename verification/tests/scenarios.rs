use artmap::map::ARTMap;
use artmap::node::internal::InternalNode;
use artmap::node::{Node, NodeType};

fn root_internal<V>(map: &ARTMap<V>) -> &InternalNode<V> {
    match map.root_node_ref() {
        Some(root) => match root.get_inner() {
            Node::Internal(inner) => inner,
            Node::Leaf(_) => panic!("the root is a leaf"),
        },
        None => panic!("the map is empty"),
    }
}

fn leaf_key_value<V: Copy>(node: &Node<V>) -> (Vec<u8>, V) {
    match node {
        Node::Leaf(leaf) => (leaf.key_ref().clone(), *leaf.value_ref()),
        Node::Internal(_) => panic!("an internal node where a leaf was expected"),
    }
}

#[test]
fn prefix_split() {
    let mut map: ARTMap<u32> = ARTMap::new();
    map.insert(b"apple".to_vec(), 1);
    map.insert(b"apricot".to_vec(), 2);
    let root = root_internal(&map);
    assert!(root.node_type() == NodeType::Node4);
    assert_eq!(root.partial_key(), b"ap");
    assert_eq!(root.children_count(), 2);
    assert!(root.get_leaf().is_none());
    assert_eq!(leaf_key_value(root.find_child(b'p').unwrap()), (b"apple".to_vec(), 1));
    assert_eq!(leaf_key_value(root.find_child(b'r').unwrap()), (b"apricot".to_vec(), 2));
    assert_eq!(map.get(b"ap"), None);
    assert_eq!(map.get(b"apple"), Some(&1));
    assert_eq!(map.get(b"apricot"), Some(&2));
}

#[test]
fn lazy_expansion() {
    let mut map: ARTMap<u32> = ARTMap::new();
    map.insert(b"ab".to_vec(), 10);
    map.insert(b"abcd".to_vec(), 20);
    let root = root_internal(&map);
    assert_eq!(root.partial_key(), b"ab");
    let own = root.get_leaf().unwrap();
    assert_eq!(own.key_ref().as_slice(), b"ab");
    assert_eq!(*own.value_ref(), 10);
    assert_eq!(root.children_count(), 1);
    assert_eq!(leaf_key_value(root.find_child(b'c').unwrap()), (b"abcd".to_vec(), 20));
    assert_eq!(map.get(b"ab"), Some(&10));
    assert_eq!(map.get(b"abc"), None);
    assert_eq!(map.get(b"abcd"), Some(&20));
}

#[test]
fn grow_to_node16() {
    let mut map: ARTMap<u32> = ARTMap::new();
    let keys: [&[u8]; 5] = [b"a0", b"a1", b"a2", b"a3", b"a4"];
    for (i, key) in keys.iter().enumerate() {
        if i == 4 {
            assert!(root_internal(&map).node_type() == NodeType::Node4);
        }
        map.insert(key.to_vec(), i as u32);
    }
    let root = root_internal(&map);
    assert!(root.node_type() == NodeType::Node16);
    assert_eq!(root.partial_key(), b"a");
    for (i, key) in keys.iter().enumerate() {
        assert_eq!(map.get(key), Some(&(i as u32)));
    }
    let listed: Vec<Vec<u8>> = map.keys();
    let expected: Vec<Vec<u8>> = keys.iter().map(|k| k.to_vec()).collect();
    assert_eq!(listed, expected);
}

#[test]
fn overwrite_keeps_node_count() {
    let mut map: ARTMap<u32> = ARTMap::new();
    assert_eq!(map.insert(b"k".to_vec(), 1), None);
    let nodes = map.count_nodes();
    assert_eq!(nodes, 1);
    assert_eq!(map.insert(b"k".to_vec(), 2), Some(1));
    assert_eq!(map.get(b"k"), Some(&2));
    assert_eq!(map.count_nodes(), nodes);
}

#[test]
fn remove_with_collapse() {
    let mut map: ARTMap<u32> = ARTMap::new();
    map.insert(b"apple".to_vec(), 1);
    map.insert(b"apricot".to_vec(), 2);
    assert_eq!(map.count_nodes(), 3);
    assert_eq!(map.remove(b"apple"), Some(1));
    match map.root_node_ref().unwrap().get_inner() {
        Node::Leaf(leaf) => {
            assert_eq!(leaf.key_ref().as_slice(), b"apricot");
            assert_eq!(*leaf.value_ref(), 2);
        }
        Node::Internal(_) => panic!("the root did not collapse"),
    }
    assert_eq!(map.get(b"apple"), None);
    assert_eq!(map.get(b"apricot"), Some(&2));
    assert_eq!(map.count_nodes(), 1);
}

#[test]
fn deep_shared_prefix_spills() {
    let mut map: ARTMap<u32> = ARTMap::new();
    map.insert(b"aaaaaaaaaaaaaaaaaaX".to_vec(), 1);
    map.insert(b"aaaaaaaaaaaaaaaaaaY".to_vec(), 2);
    let root = root_internal(&map);
    assert_eq!(root.partial_key(), b"aaaaaaaaaaaaaaaaaa");
    assert_eq!(root.partial_key().len(), 18);
    assert!(!root.is_prefix_inline());
    assert_eq!(root.children_count(), 2);
    assert_eq!(map.count_nodes(), 3);
    assert_eq!(map.get(b"aaaaaaaaaaaaaaaaaaX"), Some(&1));
    assert_eq!(map.get(b"aaaaaaaaaaaaaaaaaaY"), Some(&2));
}

#[test]
fn empty_key_is_stored_at_the_root_or_in_a_leaf_slot() {
    let mut map: ARTMap<u32> = ARTMap::new();
    assert_eq!(map.insert(Vec::new(), 7), None);
    assert_eq!(map.get(b""), Some(&7));
    match map.root_node_ref().unwrap().get_inner() {
        Node::Leaf(leaf) => assert!(leaf.key_ref().is_empty()),
        Node::Internal(_) => panic!("a single key makes a leaf root"),
    }
    map.insert(b"x".to_vec(), 8);
    let root = root_internal(&map);
    assert_eq!(root.partial_key(), b"");
    assert!(root.get_leaf().unwrap().key_ref().is_empty());
    assert_eq!(map.get(b""), Some(&7));
    assert_eq!(map.get(b"x"), Some(&8));
    assert_eq!(map.remove(b""), Some(7));
    assert_eq!(map.get(b""), None);
    assert_eq!(map.get(b"x"), Some(&8));
}

#[test]
fn strict_prefix_key_takes_the_leaf_slot() {
    let mut map: ARTMap<u32> = ARTMap::new();
    map.insert(b"abcd".to_vec(), 20);
    map.insert(b"ab".to_vec(), 10);
    let root = root_internal(&map);
    assert_eq!(root.partial_key(), b"ab");
    assert_eq!(root.get_leaf().unwrap().key_ref().as_slice(), b"ab");
    assert_eq!(map.get(b"ab"), Some(&10));
    assert_eq!(map.get(b"abcd"), Some(&20));
}

fn sibling_key(i: usize) -> Vec<u8> {
    vec![b'k', i as u8]
}

#[test]
fn variants_grow_and_shrink_at_their_capacities() {
    let mut map: ARTMap<usize> = ARTMap::new();
    for i in 0..256usize {
        map.insert(sibling_key(i), i);
        if i >= 1 {
            let expected = if i + 1 <= 4 {
                NodeType::Node4
            } else if i + 1 <= 16 {
                NodeType::Node16
            } else if i + 1 <= 48 {
                NodeType::Node48
            } else {
                NodeType::Node256
            };
            assert!(root_internal(&map).node_type() == expected, "after {} inserts", i + 1);
            assert_eq!(root_internal(&map).children_count(), i + 1);
        }
    }
    for i in 0..256usize {
        assert_eq!(map.get(&sibling_key(i)), Some(&i));
    }
    for i in (2..256usize).rev() {
        assert_eq!(map.remove(&sibling_key(i)), Some(i));
        let left = i;
        let expected = if left <= 4 {
            NodeType::Node4
        } else if left <= 16 {
            NodeType::Node16
        } else if left <= 48 {
            NodeType::Node48
        } else {
            NodeType::Node256
        };
        assert!(root_internal(&map).node_type() == expected, "with {} children left", left);
        for j in 0..i {
            assert_eq!(map.get(&sibling_key(j)), Some(&j));
        }
    }
}

#[test]
fn five_siblings_grow_node4_to_node16() {
    let mut map: ARTMap<usize> = ARTMap::new();
    for i in 0..4usize {
        map.insert(sibling_key(i), i);
    }
    assert!(root_internal(&map).node_type() == NodeType::Node4);
    map.insert(sibling_key(4), 4);
    assert!(root_internal(&map).node_type() == NodeType::Node16);
}

#[test]
fn seventeen_siblings_grow_node16_to_node48() {
    let mut map: ARTMap<usize> = ARTMap::new();
    for i in 0..16usize {
        map.insert(sibling_key(i), i);
    }
    assert!(root_internal(&map).node_type() == NodeType::Node16);
    map.insert(sibling_key(16), 16);
    assert!(root_internal(&map).node_type() == NodeType::Node48);
}

#[test]
fn forty_nine_siblings_grow_node48_to_node256() {
    let mut map: ARTMap<usize> = ARTMap::new();
    for i in 0..48usize {
        map.insert(sibling_key(i), i);
    }
    assert!(root_internal(&map).node_type() == NodeType::Node48);
    map.insert(sibling_key(48), 48);
    assert!(root_internal(&map).node_type() == NodeType::Node256);
}

#[test]
fn long_prefix_spills_and_moves_back_inline() {
    let mut map: ARTMap<u32> = ARTMap::new();
    let mut long_a = vec![b'a'; 17];
    long_a.push(b'X');
    let mut long_b = vec![b'a'; 17];
    long_b.push(b'Y');
    map.insert(long_a.clone(), 1);
    map.insert(long_b.clone(), 2);
    assert_eq!(root_internal(&map).partial_key().len(), 17);
    assert!(!root_internal(&map).is_prefix_inline());
    map.insert(b"aab".to_vec(), 3);
    let root = root_internal(&map);
    assert_eq!(root.partial_key(), b"aa");
    assert!(root.is_prefix_inline());
    match root.find_child(b'a').unwrap() {
        Node::Internal(inner) => {
            assert_eq!(inner.partial_key().len(), 14);
            assert!(inner.is_prefix_inline());
        }
        Node::Leaf(_) => panic!("the old node should hang below the new one"),
    }
    assert_eq!(map.remove(b"aab"), Some(3));
    let root = root_internal(&map);
    assert_eq!(root.partial_key().len(), 17);
    assert!(!root.is_prefix_inline());
    assert_eq!(map.get(&long_a), Some(&1));
    assert_eq!(map.get(&long_b), Some(&2));
}

#[test]
fn sixteen_byte_prefix_stays_inline() {
    let mut map: ARTMap<u32> = ARTMap::new();
    let mut a = vec![b'z'; 16];
    a.push(1);
    let mut b = vec![b'z'; 16];
    b.push(2);
    map.insert(a, 1);
    map.insert(b, 2);
    assert_eq!(root_internal(&map).partial_key().len(), 16);
    assert!(root_internal(&map).is_prefix_inline());
}
