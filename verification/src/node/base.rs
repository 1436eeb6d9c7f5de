//! Matching a node's compressed path against what is left of a search key.

use vstd::prelude::*;
use crate::util::is_common_len;

verus! {

/// How a node's partial prefix compares with the rest of a search key.
#[derive(Clone, Copy, PartialEq, Eq, Structural)]
pub enum PrefixMatchResult {
    /// The rest of the key does not start with the prefix.
    Fail,
    /// The rest of the key is the prefix: the key ends at this node.
    Exact,
    /// The rest of the key starts with the prefix and goes on.
    Extra,
}

/// The result of matching `prefix` against `rest`.
pub open spec fn prefix_match(prefix: Seq<u8>, rest: Seq<u8>) -> PrefixMatchResult {
    if rest.len() < prefix.len() {
        PrefixMatchResult::Fail
    } else if rest.take(prefix.len() as int) != prefix {
        PrefixMatchResult::Fail
    } else if rest.len() == prefix.len() {
        PrefixMatchResult::Exact
    } else {
        PrefixMatchResult::Extra
    }
}

/// Where a prefix matches below `depth`, the path to the node followed by the
/// prefix is the key's start of that length; and the byte after it leads one
/// step further along the key.
pub proof fn lemma_match_extends_path(prefix: Seq<u8>, key: Seq<u8>, depth: int)
    requires
        0 <= depth <= key.len(),
        prefix_match(prefix, key.skip(depth)) != PrefixMatchResult::Fail,
    ensures
        depth + prefix.len() <= key.len(),
        key.take(depth) + prefix == key.take(depth + prefix.len()),
        prefix_match(prefix, key.skip(depth)) == PrefixMatchResult::Extra ==> depth + prefix.len() < key.len()
            && (key.take(depth) + prefix).push(key[depth + prefix.len()]) == key.take(depth + prefix.len() + 1),
{
    let rest = key.skip(depth);
    let n = prefix.len() as int;
    assert(rest.take(n) == prefix);
    assert forall|i: int| 0 <= i < n implies prefix[i] == key[depth + i] by {
        assert(rest.take(n)[i] == rest[i]);
    }
    assert(key.take(depth) + prefix =~= key.take(depth + n));
    if prefix_match(prefix, rest) == PrefixMatchResult::Extra {
        assert((key.take(depth) + prefix).push(key[depth + n]) =~= key.take(depth + n + 1));
    }
}

/// Matching a prefix is matching its first `c` bytes, then the byte at `c`,
/// then what follows that byte.
pub proof fn lemma_prefix_match_split(prefix: Seq<u8>, rest: Seq<u8>, c: int)
    requires
        0 <= c < prefix.len(),
    ensures
        prefix_match(prefix, rest) == (if prefix_match(prefix.take(c), rest) == PrefixMatchResult::Extra && rest[c] == prefix[c] {
            prefix_match(prefix.skip(c + 1), rest.skip(c + 1))
        } else {
            PrefixMatchResult::Fail
        }),
{
    let n = prefix.len() as int;
    let head = prefix.take(c);
    let tail = prefix.skip(c + 1);
    if rest.len() >= n {
        let whole = rest.take(n) == prefix;
        let parts = rest.take(c) == head && rest[c] == prefix[c] && rest.skip(c + 1).take(n - c - 1) == tail;
        if whole {
            assert(rest.take(c) =~= head);
            assert(rest.take(n)[c] == prefix[c]);
            assert(rest.skip(c + 1).take(n - c - 1) =~= tail);
        }
        if parts {
            assert forall|i: int| 0 <= i < n implies rest.take(n)[i] == prefix[i] by {
                if i < c {
                    assert(rest.take(c)[i] == head[i]);
                } else if i > c {
                    assert(rest.skip(c + 1).take(n - c - 1)[i - c - 1] == tail[i - c - 1]);
                }
            }
            assert(rest.take(n) =~= prefix);
        }
    }
}

/// The length of the longest common prefix of a node's prefix and what is
/// left of a key tells how the prefix matches: wholly or not at all.
pub proof fn lemma_common_len_decides_match(prefix: Seq<u8>, rest: Seq<u8>, c: int)
    requires
        is_common_len(prefix, rest, c),
    ensures
        c < prefix.len() ==> prefix_match(prefix, rest) == PrefixMatchResult::Fail,
        c == prefix.len() ==> prefix_match(prefix, rest) == (if rest.len() == prefix.len() {
            PrefixMatchResult::Exact
        } else {
            PrefixMatchResult::Extra
        }),
{
    if c < prefix.len() {
        if rest.len() >= prefix.len() && rest.take(prefix.len() as int) == prefix {
            assert(rest.take(prefix.len() as int)[c] == rest[c]);
        }
    } else {
        assert(prefix.take(c) =~= prefix);
    }
}

/// Matches `prefix` against `key[depth..]`.
pub fn match_prefix_at(prefix: &[u8], key: &[u8], depth: usize) -> (result: PrefixMatchResult)
    requires
        depth <= key@.len(),
    ensures
        result == prefix_match(prefix@, key@.skip(depth as int)),
{
    let rest_len: usize = key.len() - depth;
    let prefix_size: usize = prefix.len();
    let ghost rest = key@.skip(depth as int);
    if rest_len < prefix_size {
        return PrefixMatchResult::Fail;
    }
    let mut i: usize = 0;
    while i < prefix_size
        invariant
            depth <= key@.len() <= usize::MAX,
            rest_len == key@.len() - depth,
            prefix_size == prefix@.len(),
            prefix_size <= rest_len,
            rest == key@.skip(depth as int),
            i <= prefix_size,
            rest.take(i as int) == prefix@.take(i as int),
        decreases prefix_size - i,
    {
        if prefix[i] != key[depth + i] {
            proof {
                assert(rest.take(prefix_size as int)[i as int] != prefix@[i as int]);
            }
            return PrefixMatchResult::Fail;
        }
        proof {
            assert(rest.take(i + 1) =~= rest.take(i as int).push(rest[i as int]));
            assert(prefix@.take(i + 1) =~= prefix@.take(i as int).push(prefix@[i as int]));
        }
        i += 1;
    }
    proof {
        assert(prefix@.take(i as int) =~= prefix@);
    }
    if rest_len == prefix_size {
        PrefixMatchResult::Exact
    } else {
        PrefixMatchResult::Extra
    }
}

} // verus!
