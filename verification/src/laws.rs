//! What holds of the map over several operations.

use vstd::prelude::*;
use crate::map::ARTMap;

verus! {

/// What a map holds after the inserts `entries`, made one after another on
/// a map that holds `start`.
pub open spec fn after_inserts<V>(start: Map<Seq<u8>, V>, entries: Seq<(Seq<u8>, V)>) -> Map<Seq<u8>, V>
    decreases entries.len(),
{
    if entries.len() == 0 {
        start
    } else {
        after_inserts(start, entries.drop_last()).insert(entries.last().0, entries.last().1)
    }
}

/// What a map holds after the keys `keys` have been removed, one after
/// another, from a map that holds `start`.
pub open spec fn after_removes<V>(start: Map<Seq<u8>, V>, keys: Seq<Seq<u8>>) -> Map<Seq<u8>, V>
    decreases keys.len(),
{
    if keys.len() == 0 {
        start
    } else {
        after_removes(start, keys.drop_last()).remove(keys.last())
    }
}

/// `key` is among the keys of `entries`.
pub open spec fn is_inserted<V>(entries: Seq<(Seq<u8>, V)>, key: Seq<u8>) -> bool {
    exists|i: int| 0 <= i < entries.len() && (#[trigger] entries[i]).0 == key
}

/// The entry at `i` is the last one in `entries` for its key.
pub open spec fn is_last_insert<V>(entries: Seq<(Seq<u8>, V)>, i: int) -> bool {
    &&& 0 <= i < entries.len()
    &&& forall|j: int| i < j < entries.len() ==> (#[trigger] entries[j]).0 != entries[i].0
}

/// After a run of inserts a key that was inserted is found with the value
/// of its last insert, and any other key is as it was at the start.
pub proof fn lemma_after_inserts<V>(start: Map<Seq<u8>, V>, entries: Seq<(Seq<u8>, V)>, key: Seq<u8>)
    ensures
        !is_inserted(entries, key) ==> after_inserts(start, entries).contains_key(key) == start.contains_key(key),
        !is_inserted(entries, key) && start.contains_key(key) ==> after_inserts(start, entries)[key] == start[key],
        is_inserted(entries, key) ==> after_inserts(start, entries).contains_key(key),
        forall|i: int| is_last_insert(entries, i) && entries[i].0 == key ==> after_inserts(start, entries)[key] == entries[i].1,
    decreases entries.len(),
{
    if entries.len() > 0 {
        let rest = entries.drop_last();
        lemma_after_inserts(start, rest, key);
        if is_inserted(rest, key) {
            let i = choose|i: int| 0 <= i < rest.len() && (#[trigger] rest[i]).0 == key;
            assert(entries[i].0 == key);
        }
        if is_inserted(entries, key) && entries.last().0 != key {
            let i = choose|i: int| 0 <= i < entries.len() && (#[trigger] entries[i]).0 == key;
            assert(rest[i].0 == key);
        }
        assert forall|i: int| is_last_insert(entries, i) && entries[i].0 == key implies after_inserts(start, entries)[key] == entries[i].1 by {
            if i < entries.len() - 1 {
                assert(entries[entries.len() - 1].0 != entries[i].0);
                assert(is_last_insert(rest, i)) by {
                    assert forall|j: int| i < j < rest.len() implies (#[trigger] rest[j]).0 != rest[i].0 by {
                        assert(entries[j].0 != entries[i].0);
                    }
                }
                assert(rest[i] == entries[i]);
            }
        }
    }
}

/// After a run of removes a key that was removed is absent, and any other
/// key is as it was at the start.
pub proof fn lemma_after_removes<V>(start: Map<Seq<u8>, V>, keys: Seq<Seq<u8>>, key: Seq<u8>)
    ensures
        keys.contains(key) ==> !after_removes(start, keys).contains_key(key),
        !keys.contains(key) ==> after_removes(start, keys).contains_key(key) == start.contains_key(key),
        !keys.contains(key) && start.contains_key(key) ==> after_removes(start, keys)[key] == start[key],
    decreases keys.len(),
{
    if keys.len() > 0 {
        let rest = keys.drop_last();
        lemma_after_removes(start, rest, key);
        if rest.contains(key) {
            let i = choose|i: int| 0 <= i < rest.len() && rest[i] == key;
            assert(keys[i] == key);
        }
        if keys.contains(key) && keys.last() != key {
            let i = choose|i: int| 0 <= i < keys.len() && keys[i] == key;
            assert(rest[i] == key);
        }
    }
}

/// Insert and look up: a map that starts empty and receives the inserts
/// `entries` in the order given answers for an inserted key with the value
/// of the last insert for that key, and has no other key.
///
/// `map` stands for the map after the inserts: by the contract of `insert`
/// it holds `after_inserts` of the empty map.
pub proof fn lemma_roundtrip<V>(map: ARTMap<V>, entries: Seq<(Seq<u8>, V)>, key: Seq<u8>)
    requires
        map@ == after_inserts(Map::<Seq<u8>, V>::empty(), entries),
    ensures
        map@.contains_key(key) == is_inserted(entries, key),
        forall|i: int| is_last_insert(entries, i) && entries[i].0 == key ==> map@[key] == entries[i].1,
{
    lemma_after_inserts(Map::<Seq<u8>, V>::empty(), entries, key);
}

/// Inserting a key with the value it already has changes nothing: the tree
/// after the insert is the same tree, node for node, and has the same
/// number of nodes.
///
/// `once` stands for the map before that insert and `twice` for the map
/// after it.
pub proof fn lemma_insert_idempotent<V>(once: ARTMap<V>, twice: ARTMap<V>, key: Seq<u8>, value: V)
    requires
        once.wf(),
        twice.wf(),
        once@.contains_key(key),
        once@[key] == value,
        twice@ == once@.insert(key, value),
    ensures
        twice@ == once@,
        twice.same_tree(once),
        twice.node_count() == once.node_count(),
{
    assert(twice@ =~= once@);
    twice.lemma_content_decides_shape(once);
}

/// Inserts followed by the matching removes leave the tree as it was: the
/// same keys and values, the same tree node for node, the same number of
/// nodes, which is none when the map started empty.
///
/// `before` stands for the map at the start and `after` for the map at the
/// end. The removes take out exactly the keys that were inserted, in any
/// order, and none of these keys was in the map at the start.
pub proof fn lemma_size_stable<V>(before: ARTMap<V>, after: ARTMap<V>, entries: Seq<(Seq<u8>, V)>, removals: Seq<Seq<u8>>)
    requires
        before.wf(),
        after.wf(),
        forall|k: Seq<u8>| removals.contains(k) <==> is_inserted(entries, k),
        forall|k: Seq<u8>| is_inserted(entries, k) ==> !before@.contains_key(k),
        after@ == after_removes(after_inserts(before@, entries), removals),
    ensures
        after@ == before@,
        after.same_tree(before),
        after.node_count() == before.node_count(),
        before@ == Map::<Seq<u8>, V>::empty() ==> after.node_count() == 0,
{
    let middle = after_inserts(before@, entries);
    assert forall|k: Seq<u8>| #[trigger] after@.dom().contains(k) == before@.dom().contains(k) && (before@.dom().contains(k) ==> after@[k]
        == before@[k]) by {
        lemma_after_inserts(before@, entries, k);
        lemma_after_removes(middle, removals, k);
    }
    assert(after@ =~= before@);
    after.lemma_content_decides_shape(before);
    if before@ == Map::<Seq<u8>, V>::empty() {
        after.lemma_empty_has_no_nodes();
    }
}

} // verus!
