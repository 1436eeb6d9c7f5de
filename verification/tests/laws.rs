use artmap::map::ARTMap;

fn permutations(items: &[usize]) -> Vec<Vec<usize>> {
    if items.len() <= 1 {
        return vec![items.to_vec()];
    }
    let mut all = Vec::new();
    for i in 0..items.len() {
        let mut rest = items.to_vec();
        let head = rest.remove(i);
        for mut tail in permutations(&rest) {
            tail.insert(0, head);
            all.push(tail);
        }
    }
    all
}

const KEYS: [&[u8]; 5] = [b"", b"a", b"ab", b"abc", b"b"];

#[test]
fn roundtrip_in_every_order() {
    for order in permutations(&[0, 1, 2, 3, 4]) {
        let mut map: ARTMap<usize> = ARTMap::new();
        for &i in &order {
            map.insert(KEYS[i].to_vec(), i);
        }
        for (i, key) in KEYS.iter().enumerate() {
            assert_eq!(map.get(key), Some(&i));
        }
        assert_eq!(map.get(b"abcd"), None);
        assert_eq!(map.get(b"ba"), None);
        assert_eq!(map.get(b"c"), None);
    }
}

#[test]
fn roundtrip_returns_the_last_value_inserted() {
    let mut map: ARTMap<u32> = ARTMap::new();
    map.insert(b"k1".to_vec(), 1);
    map.insert(b"k2".to_vec(), 2);
    map.insert(b"k1".to_vec(), 3);
    map.insert(b"k2".to_vec(), 4);
    map.insert(b"k1".to_vec(), 5);
    assert_eq!(map.get(b"k1"), Some(&5));
    assert_eq!(map.get(b"k2"), Some(&4));
    assert_eq!(map.get(b"k3"), None);
}

#[test]
fn traversal_is_sorted_in_every_insertion_order() {
    let mut expected: Vec<Vec<u8>> = KEYS.iter().map(|k| k.to_vec()).collect();
    expected.sort();
    for order in permutations(&[0, 1, 2, 3, 4]) {
        let mut map: ARTMap<usize> = ARTMap::new();
        for &i in &order {
            map.insert(KEYS[i].to_vec(), i);
        }
        assert_eq!(map.keys(), expected);
    }
}

#[test]
fn shape_does_not_depend_on_insertion_order() {
    let mut counts = Vec::new();
    for order in permutations(&[0, 1, 2, 3, 4]) {
        let mut map: ARTMap<usize> = ARTMap::new();
        for &i in &order {
            map.insert(KEYS[i].to_vec(), i);
        }
        counts.push(map.count_nodes());
    }
    assert!(counts.iter().all(|&n| n == counts[0]));
    // five leaves, and branch points at "", "a" and "ab"
    assert_eq!(counts[0], 8);
}

#[test]
fn inserting_the_same_pair_twice_changes_nothing() {
    let mut map: ARTMap<u32> = ARTMap::new();
    map.insert(b"apple".to_vec(), 1);
    map.insert(b"apricot".to_vec(), 2);
    map.insert(b"banana".to_vec(), 3);
    let nodes = map.count_nodes();
    let keys = map.keys();
    assert_eq!(map.insert(b"apricot".to_vec(), 2), Some(2));
    assert_eq!(map.count_nodes(), nodes);
    assert_eq!(map.keys(), keys);
    assert_eq!(map.get(b"apricot"), Some(&2));
}

#[test]
fn inserts_and_matching_removes_restore_the_node_count() {
    let mut map: ARTMap<u32> = ARTMap::new();
    map.insert(b"base".to_vec(), 0);
    map.insert(b"basis".to_vec(), 0);
    let before = map.count_nodes();
    let added: [&[u8]; 6] = [b"b", b"bas", b"basement", b"", b"x", b"basic"];
    for key in added.iter() {
        assert_eq!(map.insert(key.to_vec(), 9), None);
    }
    assert!(map.count_nodes() > before);
    for key in added.iter().rev() {
        assert_eq!(map.remove(key), Some(9));
    }
    assert_eq!(map.count_nodes(), before);
    assert_eq!(map.keys(), vec![b"base".to_vec(), b"basis".to_vec()]);
}

#[test]
fn inserts_and_removes_from_empty_leave_no_node() {
    let mut map: ARTMap<u32> = ARTMap::new();
    let added: [&[u8]; 4] = [b"one", b"two", b"three", b"on"];
    for key in added.iter() {
        map.insert(key.to_vec(), 1);
    }
    for key in [added[2], added[0], added[3], added[1]] {
        assert_eq!(map.remove(key), Some(1));
    }
    assert_eq!(map.count_nodes(), 0);
    assert!(map.root_node_ref().is_none());
}
