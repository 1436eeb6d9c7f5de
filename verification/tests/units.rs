use artmap::node::base::{match_prefix_at, PrefixMatchResult};
use artmap::node::handle::{ChildPos, NodePos};
use artmap::node::leaf::LeafNode;
use artmap::node::partial_key::{Fixed, PartialKey, MAX_PREFIX_LEN};
use artmap::node::NodeType;
use artmap::order::key_lt;
use artmap::util::{append_bytes, common_len, common_len_at, suffix_eq, to_vec};

#[test]
fn common_len_is_the_length_of_the_shared_prefix() {
    assert_eq!(common_len(b"apple", b"apricot"), 2);
    assert_eq!(common_len(b"abc", b"abc"), 3);
    assert_eq!(common_len(b"abc", b"abcd"), 3);
    assert_eq!(common_len(b"abcd", b"abc"), 3);
    assert_eq!(common_len(b"", b"abc"), 0);
    assert_eq!(common_len(b"abc", b""), 0);
    assert_eq!(common_len(b"xbc", b"abc"), 0);
    assert_eq!(common_len(b"", b""), 0);
}

#[test]
fn common_len_at_skips_the_given_bytes() {
    assert_eq!(common_len_at(b"xxapple", 2, b"yapricot", 1), 2);
    assert_eq!(common_len_at(b"abc", 3, b"abc", 0), 0);
    assert_eq!(common_len_at(b"abc", 1, b"zbc", 1), 2);
}

#[test]
fn suffix_eq_compares_the_rests() {
    assert!(suffix_eq(b"xabc", 1, b"yyabc", 2));
    assert!(!suffix_eq(b"xabc", 1, b"yyabd", 2));
    assert!(!suffix_eq(b"xabc", 1, b"yyab", 2));
    assert!(suffix_eq(b"ab", 2, b"cd", 2));
}

#[test]
fn byte_helpers_copy() {
    assert_eq!(to_vec(b"copy"), b"copy".to_vec());
    assert_eq!(to_vec(b""), Vec::<u8>::new());
    let mut target = b"ab".to_vec();
    append_bytes(&mut target, b"cd");
    append_bytes(&mut target, b"");
    assert_eq!(target, b"abcd".to_vec());
}

#[test]
fn match_prefix_tells_fail_exact_and_extra() {
    assert!(match_prefix_at(b"ab", b"xxab", 2) == PrefixMatchResult::Exact);
    assert!(match_prefix_at(b"ab", b"xxabc", 2) == PrefixMatchResult::Extra);
    assert!(match_prefix_at(b"ab", b"xxa", 2) == PrefixMatchResult::Fail);
    assert!(match_prefix_at(b"ab", b"xxac", 2) == PrefixMatchResult::Fail);
    assert!(match_prefix_at(b"ab", b"xxacd", 2) == PrefixMatchResult::Fail);
    assert!(match_prefix_at(b"", b"xx", 2) == PrefixMatchResult::Exact);
    assert!(match_prefix_at(b"", b"xxy", 2) == PrefixMatchResult::Extra);
}

#[test]
fn partial_key_moves_between_inline_and_heap() {
    let mut key = PartialKey::default();
    assert!(matches!(key, PartialKey::FixSized(_)));
    assert_eq!(key.len(), 0);
    key.update(&[7u8; 16]);
    assert!(matches!(key, PartialKey::FixSized(_)));
    assert_eq!(key.as_slice(), &[7u8; 16]);
    key.update(&[8u8; 17]);
    assert!(matches!(key, PartialKey::VarSized(_)));
    assert_eq!(key.as_slice(), &[8u8; 17]);
    key.update(&[9u8; 40]);
    assert!(matches!(key, PartialKey::VarSized(_)));
    assert_eq!(key.len(), 40);
    key.update(b"short");
    assert!(matches!(key, PartialKey::FixSized(_)));
    assert_eq!(key.as_slice(), b"short");
    assert_eq!(key.common_prefix_len(b"shore"), 4);
    assert_eq!(MAX_PREFIX_LEN, 16);
}

#[test]
fn partial_key_from_slice_picks_the_storage() {
    assert!(matches!(PartialKey::from_slice(&[1u8; 16]), PartialKey::FixSized(_)));
    assert!(matches!(PartialKey::from_slice(&[1u8; 17]), PartialKey::VarSized(_)));
}

#[test]
fn fixed_prefix_holds_what_was_set() {
    let mut fixed = Fixed::new(b"abc");
    assert_eq!(fixed.partial_prefix(), b"abc");
    fixed.set_data(b"abcdefghijklmnop");
    assert_eq!(fixed.partial_prefix(), b"abcdefghijklmnop");
    fixed.update(b"");
    assert_eq!(fixed.partial_prefix(), b"");
}

#[test]
fn leaf_holds_key_and_value() {
    let mut leaf = LeafNode::new(b"leaf".to_vec(), 1u32);
    assert_eq!(leaf.key_ref(), &b"leaf".to_vec());
    assert_eq!(leaf.value_ref(), &1);
    assert_eq!(leaf.set_value(2), 1);
    *leaf.value_mut() += 1;
    assert_eq!(leaf.value_ref(), &3);
    assert_eq!(leaf.partial_key(0), b"leaf");
    assert_eq!(leaf.partial_key(2), b"af");
    assert_eq!(leaf.partial_key(4), b"");
    assert_eq!(leaf.partial_key(9), b"");
    assert_eq!((*leaf).into_kv(), (b"leaf".to_vec(), 3));
}

#[test]
fn node_type_tells_leaves_from_internal_nodes() {
    assert!(NodeType::Leaf.is_leaf());
    assert!(!NodeType::Leaf.is_internal());
    for kind in [NodeType::Node4, NodeType::Node16, NodeType::Node48, NodeType::Node256] {
        assert!(kind.is_internal());
        assert!(!kind.is_leaf());
    }
}

#[test]
fn child_pos_packs_a_byte_or_the_leaf_slot() {
    assert_eq!(ChildPos::from(Some(0u8)).to_idx(), Some(0));
    assert_eq!(ChildPos::from(Some(255u8)).to_idx(), Some(255));
    assert_eq!(ChildPos::from(None).to_idx(), None);
    assert!(ChildPos::from(Some(7u8)).to_pos() == NodePos::Child(7));
    assert!(ChildPos::from(None).to_pos() == NodePos::Leaf);
}

#[test]
fn key_order_is_lexicographic() {
    let keys: [&[u8]; 7] = [b"", b"a", b"a\x00", b"ab", b"b", b"b\x00", b"\xff"];
    for (i, a) in keys.iter().enumerate() {
        for (j, b) in keys.iter().enumerate() {
            assert_eq!(key_lt(a, b), i < j, "{:?} < {:?}", a, b);
            assert_eq!(key_lt(a, b), a < b);
        }
    }
}
