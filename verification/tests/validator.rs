use artmap::entry::Entry;
use artmap::map::ARTMap;
use artmap::node::internal::InternalNode;
use artmap::node::{Node, NodeType};

fn children_of<V>(inner: &InternalNode<V>) -> Vec<(u8, &Node<V>)> {
    let mut found = Vec::new();
    let mut from: u16 = 0;
    while from < 256 {
        match inner.next_child(from as u8) {
            Some((b, child)) => {
                found.push((b, child));
                from = b as u16 + 1;
            }
            None => break,
        }
    }
    found
}

fn smallest_layout(count: usize) -> NodeType {
    if count <= 4 {
        NodeType::Node4
    } else if count <= 16 {
        NodeType::Node16
    } else if count <= 48 {
        NodeType::Node48
    } else {
        NodeType::Node256
    }
}

fn common_prefix(a: &[u8], b: &[u8]) -> usize {
    a.iter().zip(b.iter()).take_while(|(x, y)| x == y).count()
}

/// Walks the subtree below `node`, which is reached along `path`, checks
/// every invariant on the way and gathers the keys in the order of the walk.
fn validate<V>(node: &Node<V>, path: &[u8], keys: &mut Vec<Vec<u8>>) {
    match node {
        Node::Leaf(leaf) => {
            assert!(leaf.key_ref().starts_with(path), "a leaf off its path");
            keys.push(leaf.key_ref().clone());
        }
        Node::Internal(inner) => {
            let first = keys.len();
            let mut below = path.to_vec();
            below.extend_from_slice(inner.partial_key());
            let children = children_of(inner);
            let own = if inner.get_leaf().is_some() { 1 } else { 0 };
            assert!(children.len() + own >= 2, "an internal node with fewer than two entries");
            assert_eq!(inner.children_count(), children.len());
            assert!(inner.node_type() == smallest_layout(children.len()), "not the smallest layout");
            assert_eq!(inner.is_prefix_inline(), inner.partial_key().len() <= 16);
            if let Some(leaf) = inner.get_leaf() {
                assert_eq!(leaf.key_ref(), &below);
                keys.push(leaf.key_ref().clone());
            }
            let mut last: Option<u8> = None;
            for (b, child) in children {
                assert!(last.map_or(true, |l| l < b), "children out of order");
                last = Some(b);
                assert!(inner.find_child(b).is_some());
                let idx = inner.find(b).expect("a child without a position");
                assert!(inner.child_at(idx).is_some());
                let mut under = below.clone();
                under.push(b);
                validate(child, &under, keys);
            }
            // the stored prefix is what the keys below have in common
            let mine = &keys[first..];
            let mut shared = mine[0].len();
            for key in mine {
                shared = shared.min(common_prefix(&mine[0], key));
            }
            assert_eq!(shared, below.len(), "the prefix is not the longest common prefix");
            assert_eq!(&mine[0][path.len()..shared], inner.partial_key());
        }
    }
}

fn validate_map<V>(map: &ARTMap<V>) -> Vec<Vec<u8>> {
    let mut keys = Vec::new();
    if let Some(root) = map.root_node_ref() {
        assert_eq!(root.prefix_len(), 0);
        validate(root.get_inner(), b"", &mut keys);
    }
    for pair in keys.windows(2) {
        assert!(pair[0] < pair[1], "keys out of order or repeated");
    }
    assert_eq!(map.keys(), keys);
    keys
}

fn next(state: &mut u64) -> u64 {
    *state = state.wrapping_mul(6364136223846793005).wrapping_add(1442695040888963407);
    *state >> 33
}

fn random_key(state: &mut u64, alphabet: u64, max_len: u64) -> Vec<u8> {
    let len = next(state) % (max_len + 1);
    (0..len).map(|_| (next(state) % alphabet) as u8).collect()
}

#[test]
fn invariants_hold_after_every_operation_on_narrow_keys() {
    let mut state: u64 = 1;
    let mut map: ARTMap<u64> = ARTMap::new();
    validate_map(&map);
    for step in 0..1500u64 {
        let key = random_key(&mut state, 3, 7);
        if next(&mut state) % 3 == 0 {
            map.remove(&key);
        } else {
            map.insert(key, step);
        }
        validate_map(&map);
    }
}

#[test]
fn invariants_hold_after_every_operation_on_wide_keys() {
    let mut state: u64 = 5;
    let mut map: ARTMap<u64> = ARTMap::new();
    for step in 0..4000u64 {
        let key = random_key(&mut state, 256, 2);
        if next(&mut state) % 3 == 0 {
            map.remove(&key);
        } else {
            map.insert(key, step);
        }
        if step % 20 == 0 {
            validate_map(&map);
        }
    }
    validate_map(&map);
}

#[test]
fn invariants_hold_with_long_shared_prefixes() {
    let mut state: u64 = 11;
    let mut map: ARTMap<u64> = ARTMap::new();
    for step in 0..600u64 {
        let mut key = vec![b'p'; (next(&mut state) % 40) as usize];
        key.extend(random_key(&mut state, 2, 3));
        if next(&mut state) % 4 == 0 {
            map.remove(&key);
        } else {
            map.insert(key, step);
        }
        validate_map(&map);
    }
}

#[test]
fn invariants_hold_through_entries() {
    let mut state: u64 = 21;
    let mut map: ARTMap<u64> = ARTMap::new();
    for step in 0..800u64 {
        let key = random_key(&mut state, 4, 4);
        match map.entry(key) {
            Entry::Occupied(entry) => {
                if step % 2 == 0 {
                    entry.remove_kv();
                } else {
                    *entry.into_mut() += 1;
                }
            }
            Entry::Vacant(entry) => {
                if step % 5 != 0 {
                    entry.insert(step);
                }
            }
        }
        validate_map(&map);
    }
}
