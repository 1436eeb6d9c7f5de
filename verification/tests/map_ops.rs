use std::collections::BTreeMap;

use artmap::map::ARTMap;
use artmap::tree::AdaptiveRadixTreeMap;

#[test]
fn insert_then_get_returns_value() {
    let mut map: ARTMap<u32> = ARTMap::new();
    assert_eq!(map.insert(b"apple".to_vec(), 1), None);
    assert_eq!(map.insert(b"apricot".to_vec(), 2), None);
    assert_eq!(map.get(b"apple"), Some(&1));
    assert_eq!(map.get(b"apricot"), Some(&2));
    assert_eq!(map.get(b"ap"), None);
    assert_eq!(map.get(b"apples"), None);
    assert_eq!(map.get(b"b"), None);
}

#[test]
fn new_map_is_empty() {
    let map: ARTMap<u32> = ARTMap::new();
    assert!(map.root_node_ref().is_none());
    assert_eq!(map.get(b""), None);
    assert_eq!(map.get(b"a"), None);
    assert_eq!(map.count_nodes(), 0);
    assert!(map.keys().is_empty());
}

#[test]
fn get_mut_writes_through() {
    let mut map: ARTMap<u32> = ARTMap::new();
    map.insert(b"one".to_vec(), 1);
    map.insert(b"only".to_vec(), 2);
    map.insert(b"on".to_vec(), 3);
    assert!(map.get_mut(b"o").is_none());
    *map.get_mut(b"only").unwrap() = 20;
    *map.get_mut(b"on").unwrap() += 30;
    assert_eq!(map.get(b"one"), Some(&1));
    assert_eq!(map.get(b"only"), Some(&20));
    assert_eq!(map.get(b"on"), Some(&33));
}

#[test]
fn get_mut_on_a_single_leaf() {
    let mut map: ARTMap<u32> = ARTMap::new();
    map.insert(b"solo".to_vec(), 1);
    assert!(map.get_mut(b"sol").is_none());
    *map.get_mut(b"solo").unwrap() = 5;
    assert_eq!(map.get(b"solo"), Some(&5));
}

#[test]
fn remove_absent_key_changes_nothing() {
    let mut map: ARTMap<u32> = ARTMap::new();
    assert_eq!(map.remove(b"x"), None);
    map.insert(b"abc".to_vec(), 1);
    map.insert(b"abd".to_vec(), 2);
    let nodes = map.count_nodes();
    assert_eq!(map.remove(b"ab"), None);
    assert_eq!(map.remove(b"abcd"), None);
    assert_eq!(map.remove(b"zzz"), None);
    assert_eq!(map.count_nodes(), nodes);
    assert_eq!(map.get(b"abc"), Some(&1));
    assert_eq!(map.get(b"abd"), Some(&2));
}

#[test]
fn remove_last_key_empties_the_map() {
    let mut map: ARTMap<u32> = ARTMap::new();
    map.insert(b"k".to_vec(), 1);
    assert_eq!(map.remove(b"k"), Some(1));
    assert!(map.root_node_ref().is_none());
    assert_eq!(map.count_nodes(), 0);
}

#[test]
fn collapse_merges_prefixes() {
    let mut map: ARTMap<u32> = ARTMap::new();
    map.insert(b"romane".to_vec(), 1);
    map.insert(b"romanus".to_vec(), 2);
    map.insert(b"rubens".to_vec(), 3);
    // root "r" -> 'o': node "man" -> {e, u}; 'u': leaf
    assert_eq!(map.count_nodes(), 5);
    assert_eq!(map.remove(b"rubens"), Some(3));
    // the root dissolves into its only child, whose prefix becomes "roman"
    assert_eq!(map.count_nodes(), 3);
    let root = map.root_node_ref().unwrap();
    match root.get_inner() {
        artmap::node::Node::Internal(inner) => assert_eq!(inner.partial_key(), b"roman"),
        artmap::node::Node::Leaf(_) => panic!("two keys are left"),
    }
    assert_eq!(map.get(b"romane"), Some(&1));
    assert_eq!(map.get(b"romanus"), Some(&2));
    assert_eq!(map.get(b"rubens"), None);
}

#[test]
fn removing_the_leaf_slot_collapses_to_the_child() {
    let mut map: ARTMap<u32> = ARTMap::new();
    map.insert(b"ab".to_vec(), 10);
    map.insert(b"abcd".to_vec(), 20);
    assert_eq!(map.remove(b"ab"), Some(10));
    assert_eq!(map.count_nodes(), 1);
    assert_eq!(map.get(b"abcd"), Some(&20));
    assert_eq!(map.get(b"ab"), None);
}

#[test]
fn removing_the_child_collapses_to_the_leaf_slot() {
    let mut map: ARTMap<u32> = ARTMap::new();
    map.insert(b"ab".to_vec(), 10);
    map.insert(b"abcd".to_vec(), 20);
    assert_eq!(map.remove(b"abcd"), Some(20));
    assert_eq!(map.count_nodes(), 1);
    assert_eq!(map.get(b"ab"), Some(&10));
    assert_eq!(map.get(b"abcd"), None);
}

#[test]
fn keys_come_out_in_byte_order() {
    let mut map: ARTMap<u32> = ARTMap::new();
    let keys: [&[u8]; 9] = [b"b", b"", b"ab", b"a", b"abc", b"\xff", b"aa", b"b\x00", b"a\x00"];
    for (i, key) in keys.iter().enumerate() {
        map.insert(key.to_vec(), i as u32);
    }
    let mut expected: Vec<Vec<u8>> = keys.iter().map(|k| k.to_vec()).collect();
    expected.sort();
    assert_eq!(map.keys(), expected);
}

fn next(state: &mut u64) -> u64 {
    *state = state.wrapping_mul(6364136223846793005).wrapping_add(1442695040888963407);
    *state >> 33
}

fn random_key(state: &mut u64) -> Vec<u8> {
    let len = (next(state) % 6) as usize;
    let mut key = Vec::with_capacity(len);
    for _ in 0..len {
        // a small alphabet makes shared prefixes and full nodes likely
        key.push(b'a' + (next(state) % 3) as u8);
    }
    key
}

fn wide_key(state: &mut u64) -> Vec<u8> {
    let len = 1 + (next(state) % 3) as usize;
    let mut key = Vec::with_capacity(len);
    for _ in 0..len {
        key.push((next(state) % 256) as u8);
    }
    key
}

fn check_against(map: &ARTMap<u64>, model: &BTreeMap<Vec<u8>, u64>) {
    let keys = map.keys();
    let expected: Vec<Vec<u8>> = model.keys().cloned().collect();
    assert_eq!(keys, expected);
    for (key, value) in model.iter() {
        assert_eq!(map.get(key), Some(value));
    }
}

#[test]
fn behaves_like_an_ordered_map_on_narrow_keys() {
    let mut state: u64 = 7;
    let mut map: ARTMap<u64> = ARTMap::new();
    let mut model: BTreeMap<Vec<u8>, u64> = BTreeMap::new();
    for step in 0..3000u64 {
        let key = random_key(&mut state);
        match next(&mut state) % 3 {
            0 => assert_eq!(map.remove(&key), model.remove(&key)),
            1 => assert_eq!(map.get(&key), model.get(&key)),
            _ => assert_eq!(map.insert(key.clone(), step), model.insert(key, step)),
        }
        if step % 97 == 0 {
            check_against(&map, &model);
        }
    }
    check_against(&map, &model);
    let keys: Vec<Vec<u8>> = model.keys().cloned().collect();
    for key in keys {
        assert_eq!(map.remove(&key), model.remove(&key));
    }
    assert_eq!(map.count_nodes(), 0);
}

#[test]
fn behaves_like_an_ordered_map_on_wide_keys() {
    let mut state: u64 = 99;
    let mut map: ARTMap<u64> = ARTMap::new();
    let mut model: BTreeMap<Vec<u8>, u64> = BTreeMap::new();
    for step in 0..6000u64 {
        let key = wide_key(&mut state);
        match next(&mut state) % 4 {
            0 => assert_eq!(map.remove(&key), model.remove(&key)),
            _ => assert_eq!(map.insert(key.clone(), step), model.insert(key, step)),
        }
        if step % 500 == 0 {
            check_against(&map, &model);
        }
    }
    check_against(&map, &model);
    for probe in 0..=255u8 {
        assert_eq!(map.get(&[probe]), model.get(&vec![probe]));
    }
}

#[test]
fn node_count_is_leaves_plus_branch_points() {
    let mut map: ARTMap<u32> = ARTMap::new();
    map.insert(b"a".to_vec(), 1);
    assert_eq!(map.count_nodes(), 1);
    map.insert(b"b".to_vec(), 2);
    assert_eq!(map.count_nodes(), 3);
    map.insert(b"c".to_vec(), 3);
    assert_eq!(map.count_nodes(), 4);
    map.insert(b"ca".to_vec(), 4);
    assert_eq!(map.count_nodes(), 6);
    map.insert(b"".to_vec(), 5);
    assert_eq!(map.count_nodes(), 7);
}

#[test]
fn long_named_map_copies_its_keys() {
    let mut map: AdaptiveRadixTreeMap<String> = AdaptiveRadixTreeMap::new();
    let key = b"hello".to_vec();
    assert_eq!(map.insert(&key, "a".to_string()), None);
    assert_eq!(map.insert(&key, "b".to_string()), Some("a".to_string()));
    assert_eq!(map.get(&key), Some(&"b".to_string()));
    map.get_mut(&key).unwrap().push('c');
    assert_eq!(map.get(b"hello"), Some(&"bc".to_string()));
    assert_eq!(map.get(b"hell"), None);
    assert_eq!(map.remove(b"hello"), Some("bc".to_string()));
    assert_eq!(map.remove(b"hello"), None);
    assert_eq!(map.get(b"hello"), None);
}

#[test]
fn lower_bound_is_the_first_key_not_before() {
    let mut map: ARTMap<u32> = ARTMap::new();
    assert!(map.lower_bound(b"a").is_none());
    let keys: [&[u8]; 6] = [b"ab", b"abc", b"abd", b"b", b"ba", b"c\x00"];
    for (i, key) in keys.iter().enumerate() {
        map.insert(key.to_vec(), i as u32);
    }
    let probe = |key: &[u8]| map.lower_bound(key).map(|leaf| leaf.key_ref().clone());
    assert_eq!(probe(b""), Some(b"ab".to_vec()));
    assert_eq!(probe(b"a"), Some(b"ab".to_vec()));
    assert_eq!(probe(b"ab"), Some(b"ab".to_vec()));
    assert_eq!(probe(b"ab\x00"), Some(b"abc".to_vec()));
    assert_eq!(probe(b"abc"), Some(b"abc".to_vec()));
    assert_eq!(probe(b"abca"), Some(b"abd".to_vec()));
    assert_eq!(probe(b"abe"), Some(b"b".to_vec()));
    assert_eq!(probe(b"b"), Some(b"b".to_vec()));
    assert_eq!(probe(b"b\x00"), Some(b"ba".to_vec()));
    assert_eq!(probe(b"bb"), Some(b"c\x00".to_vec()));
    assert_eq!(probe(b"c"), Some(b"c\x00".to_vec()));
    assert_eq!(probe(b"c\x00"), Some(b"c\x00".to_vec()));
    assert_eq!(probe(b"c\x00\x00"), None);
    assert_eq!(probe(b"d"), None);
    assert_eq!(map.lower_bound(b"abc").map(|leaf| *leaf.value_ref()), Some(1));
}

#[test]
fn lower_bound_agrees_with_an_ordered_map() {
    let mut state: u64 = 2024;
    let mut map: ARTMap<u64> = ARTMap::new();
    let mut model: BTreeMap<Vec<u8>, u64> = BTreeMap::new();
    for step in 0..400u64 {
        let key = if step % 2 == 0 { random_key(&mut state) } else { wide_key(&mut state) };
        map.insert(key.clone(), step);
        model.insert(key, step);
    }
    for _ in 0..2000 {
        let probe = if next(&mut state) % 2 == 0 { random_key(&mut state) } else { wide_key(&mut state) };
        let expected = model.range(probe.clone()..).next().map(|(k, v)| (k.clone(), *v));
        let found = map.lower_bound(&probe).map(|leaf| (leaf.key_ref().clone(), *leaf.value_ref()));
        assert_eq!(found, expected, "lower bound of {:?}", probe);
    }
}

#[test]
fn upper_bound_is_the_last_key_not_after() {
    let mut map: ARTMap<u32> = ARTMap::new();
    assert!(map.upper_bound(b"a").is_none());
    let keys: [&[u8]; 6] = [b"ab", b"abc", b"abd", b"b", b"ba", b"c\x00"];
    for (i, key) in keys.iter().enumerate() {
        map.insert(key.to_vec(), i as u32);
    }
    let probe = |key: &[u8]| map.upper_bound(key).map(|leaf| leaf.key_ref().clone());
    assert_eq!(probe(b""), None);
    assert_eq!(probe(b"a"), None);
    assert_eq!(probe(b"aa\xff"), None);
    assert_eq!(probe(b"ab"), Some(b"ab".to_vec()));
    assert_eq!(probe(b"ab\x00"), Some(b"ab".to_vec()));
    assert_eq!(probe(b"abc"), Some(b"abc".to_vec()));
    assert_eq!(probe(b"abca"), Some(b"abc".to_vec()));
    assert_eq!(probe(b"abe"), Some(b"abd".to_vec()));
    assert_eq!(probe(b"b"), Some(b"b".to_vec()));
    assert_eq!(probe(b"b\x00"), Some(b"b".to_vec()));
    assert_eq!(probe(b"bb"), Some(b"ba".to_vec()));
    assert_eq!(probe(b"c"), Some(b"ba".to_vec()));
    assert_eq!(probe(b"c\x00"), Some(b"c\x00".to_vec()));
    assert_eq!(probe(b"zzz"), Some(b"c\x00".to_vec()));
    assert_eq!(map.upper_bound(b"abz").map(|leaf| *leaf.value_ref()), Some(2));
}

#[test]
fn upper_bound_agrees_with_an_ordered_map() {
    let mut state: u64 = 4048;
    let mut map: ARTMap<u64> = ARTMap::new();
    let mut model: BTreeMap<Vec<u8>, u64> = BTreeMap::new();
    for step in 0..400u64 {
        let key = if step % 2 == 0 { random_key(&mut state) } else { wide_key(&mut state) };
        map.insert(key.clone(), step);
        model.insert(key, step);
    }
    for _ in 0..2000 {
        let probe = if next(&mut state) % 2 == 0 { random_key(&mut state) } else { wide_key(&mut state) };
        let expected = model.range(..=probe.clone()).next_back().map(|(k, v)| (k.clone(), *v));
        let found = map.upper_bound(&probe).map(|leaf| (leaf.key_ref().clone(), *leaf.value_ref()));
        assert_eq!(found, expected, "upper bound of {:?}", probe);
    }
}
