use artmap::entry::Entry;
use artmap::map::ARTMap;

fn sample() -> ARTMap<u32> {
    let mut map: ARTMap<u32> = ARTMap::new();
    map.insert(b"car".to_vec(), 1);
    map.insert(b"cart".to_vec(), 2);
    map.insert(b"dog".to_vec(), 3);
    map
}

#[test]
fn entry_of_a_present_key_is_occupied() {
    let mut map = sample();
    for key in [&b"car"[..], b"cart", b"dog"] {
        assert!(matches!(map.entry(key.to_vec()), Entry::Occupied(_)));
    }
    for key in [&b""[..], b"c", b"ca", b"carts", b"do", b"e"] {
        assert!(matches!(map.entry(key.to_vec()), Entry::Vacant(_)));
    }
}

#[test]
fn entry_on_empty_map_is_vacant_at_the_root() {
    let mut map: ARTMap<u32> = ARTMap::new();
    match map.entry(b"first".to_vec()) {
        Entry::Vacant(entry) => {
            assert_eq!(entry.key(), &b"first".to_vec());
            *entry.insert(1) += 10;
        }
        Entry::Occupied(_) => panic!("the map is empty"),
    }
    assert_eq!(map.get(b"first"), Some(&11));
    assert_eq!(map.count_nodes(), 1);
}

#[test]
fn entry_on_a_root_leaf() {
    let mut map: ARTMap<u32> = ARTMap::new();
    map.insert(b"only".to_vec(), 1);
    match map.entry(b"only".to_vec()) {
        Entry::Occupied(mut entry) => {
            assert_eq!(entry.get(), &1);
            assert_eq!(entry.insert(2), 1);
            assert_eq!(entry.remove_kv(), (b"only".to_vec(), 2));
        }
        Entry::Vacant(_) => panic!("the key is present"),
    }
    assert!(map.root_node_ref().is_none());
}

#[test]
fn or_insert_keeps_a_present_value() {
    let mut map = sample();
    assert_eq!(*map.entry(b"car".to_vec()).or_insert(9), 1);
    assert_eq!(*map.entry(b"cat".to_vec()).or_insert(9), 9);
    *map.entry(b"cat".to_vec()).or_insert(0) += 1;
    assert_eq!(map.get(b"car"), Some(&1));
    assert_eq!(map.get(b"cat"), Some(&10));
}

#[test]
fn or_insert_with_calls_only_when_vacant() {
    let mut map = sample();
    let mut calls = 0;
    assert_eq!(*map.entry(b"dog".to_vec()).or_insert_with(|| { calls += 1; 7 }), 3);
    assert_eq!(calls, 0);
    assert_eq!(*map.entry(b"dot".to_vec()).or_insert_with(|| { calls += 1; 7 }), 7);
    assert_eq!(calls, 1);
    assert_eq!(map.get(b"dot"), Some(&7));
}

#[test]
fn or_insert_with_key_sees_the_key() {
    let mut map = sample();
    assert_eq!(*map.entry(b"four".to_vec()).or_insert_with_key(|k| k.len() as u32), 4);
    assert_eq!(*map.entry(b"car".to_vec()).or_insert_with_key(|k| k.len() as u32), 1);
    assert_eq!(map.get(b"four"), Some(&4));
}

#[test]
fn or_default_inserts_the_default() {
    let mut map = sample();
    assert_eq!(*map.entry(b"zero".to_vec()).or_default(), 0);
    assert_eq!(*map.entry(b"cart".to_vec()).or_default(), 2);
    assert_eq!(map.get(b"zero"), Some(&0));
}

#[test]
fn and_modify_changes_only_present_values() {
    let mut map = sample();
    map.entry(b"car".to_vec()).and_modify(|v| *v += 100).or_insert(5);
    map.entry(b"cow".to_vec()).and_modify(|v| *v += 100).or_insert(5);
    assert_eq!(map.get(b"car"), Some(&101));
    assert_eq!(map.get(b"cow"), Some(&5));
}

#[test]
fn entry_key_is_the_key_asked_for() {
    let mut map = sample();
    assert_eq!(map.entry(b"car".to_vec()).key(), &b"car".to_vec());
    assert_eq!(map.entry(b"nope".to_vec()).key(), &b"nope".to_vec());
}

#[test]
fn vacant_entry_gives_its_key_back() {
    let mut map = sample();
    match map.entry(b"care".to_vec()) {
        Entry::Vacant(entry) => assert_eq!(entry.into_key(), b"care".to_vec()),
        Entry::Occupied(_) => panic!("the key is absent"),
    }
    assert_eq!(map.get(b"care"), None);
    assert_eq!(map.keys().len(), 3);
}

#[test]
fn vacant_insert_hands_out_the_stored_value() {
    let mut map = sample();
    for key in [&b"ca"[..], b"carts", b"", b"cab", b"d"] {
        match map.entry(key.to_vec()) {
            Entry::Vacant(entry) => {
                let stored = entry.insert(40);
                assert_eq!(*stored, 40);
                *stored += 2;
            }
            Entry::Occupied(_) => panic!("the key is absent"),
        }
        assert_eq!(map.get(key), Some(&42));
    }
    assert_eq!(map.get(b"car"), Some(&1));
    assert_eq!(map.get(b"cart"), Some(&2));
    assert_eq!(map.get(b"dog"), Some(&3));
}

#[test]
fn occupied_entry_reads_and_writes() {
    let mut map = sample();
    match map.entry(b"cart".to_vec()) {
        Entry::Occupied(mut entry) => {
            assert_eq!(entry.key(), &b"cart".to_vec());
            assert_eq!(entry.get(), &2);
            *entry.get_mut() += 1;
            assert_eq!(entry.get(), &3);
            assert_eq!(entry.insert(8), 3);
            assert_eq!(entry.get(), &8);
            *entry.into_mut() *= 2;
        }
        Entry::Vacant(_) => panic!("the key is present"),
    }
    assert_eq!(map.get(b"cart"), Some(&16));
}

#[test]
fn occupied_entry_in_a_leaf_slot() {
    let mut map = sample();
    match map.entry(b"car".to_vec()) {
        Entry::Occupied(mut entry) => {
            assert_eq!(entry.get(), &1);
            assert_eq!(entry.insert(5), 1);
        }
        Entry::Vacant(_) => panic!("the key is present"),
    }
    assert_eq!(map.get(b"car"), Some(&5));
    assert_eq!(map.get(b"cart"), Some(&2));
}

#[test]
fn remove_kv_hands_back_the_pair() {
    let mut map = sample();
    let nodes = map.count_nodes();
    match map.entry(b"cart".to_vec()) {
        Entry::Occupied(entry) => assert_eq!(entry.remove_kv(), (b"cart".to_vec(), 2)),
        Entry::Vacant(_) => panic!("the key is present"),
    }
    assert_eq!(map.get(b"cart"), None);
    assert_eq!(map.get(b"car"), Some(&1));
    assert!(map.count_nodes() < nodes);
    match map.entry(b"car".to_vec()) {
        Entry::Occupied(entry) => assert_eq!(entry.remove_kv(), (b"car".to_vec(), 1)),
        Entry::Vacant(_) => panic!("the key is present"),
    }
    assert_eq!(map.keys(), vec![b"dog".to_vec()]);
    assert_eq!(map.count_nodes(), 1);
}
