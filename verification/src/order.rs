//! The order of keys: byte strings compared byte by byte, a proper prefix
//! coming before what it is a prefix of.

use vstd::prelude::*;
use crate::util::{common_len, is_common_len, lemma_common_len_unique};

verus! {

/// `first` comes before `second`, and index `n` shows it: the two agree on
/// their first `n` bytes, and there `first` ends while `second` goes on, or
/// `first` has the smaller byte.
pub open spec fn lex_lt_at(first: Seq<u8>, second: Seq<u8>, n: int) -> bool {
    &&& 0 <= n <= first.len()
    &&& n < second.len()
    &&& first.take(n) == second.take(n)
    &&& (n < first.len() ==> first[n] < second[n])
}

/// `first` comes before `second` in the lexicographic order of byte
/// strings.
pub open spec fn lex_lt(first: Seq<u8>, second: Seq<u8>) -> bool {
    exists|n: int| lex_lt_at(first, second, n)
}

/// Each key of the sequence comes before those that follow it.
pub open spec fn strictly_sorted(keys: Seq<Seq<u8>>) -> bool {
    forall|i: int, j: int| 0 <= i < j < keys.len() ==> lex_lt(#[trigger] keys[i], #[trigger] keys[j])
}

/// No key comes before itself.
pub proof fn lemma_lex_lt_irreflexive(key: Seq<u8>)
    ensures
        !lex_lt(key, key),
{
}

/// The order is transitive.
pub proof fn lemma_lex_lt_transitive(a: Seq<u8>, b: Seq<u8>, c: Seq<u8>)
    requires
        lex_lt(a, b),
        lex_lt(b, c),
    ensures
        lex_lt(a, c),
{
    let n = choose|n: int| lex_lt_at(a, b, n);
    let m = choose|m: int| lex_lt_at(b, c, m);
    let k = if n <= m { n } else { m };
    assert(a.take(k) =~= c.take(k)) by {
        assert forall|i: int| 0 <= i < k implies a[i] == c[i] by {
            assert(a.take(n)[i] == b.take(n)[i]);
            assert(b.take(m)[i] == c.take(m)[i]);
        }
    }
    if n < m {
        assert(b.take(m)[n] == c.take(m)[n]);
    } else if m < n {
        assert(a.take(n)[m] == b.take(n)[m]);
    }
    assert(lex_lt_at(a, c, k));
}

/// Of two different keys one comes before the other.
pub proof fn lemma_lex_lt_total(a: Seq<u8>, b: Seq<u8>)
    requires
        a != b,
    ensures
        lex_lt(a, b) || lex_lt(b, a),
{
    assert(a.take(0) =~= b.take(0));
    let n = lemma_common_len_exists(a, b, 0);
    if n == a.len() && n == b.len() {
        assert(a.take(n) =~= a);
        assert(b.take(n) =~= b);
    } else if n == a.len() {
        assert(lex_lt_at(a, b, n));
    } else if n == b.len() {
        assert(lex_lt_at(b, a, n));
    } else if a[n] < b[n] {
        assert(lex_lt_at(a, b, n));
    } else {
        assert(lex_lt_at(b, a, n));
    }
}

/// Two keys that agree on their first `from` bytes have a longest common
/// prefix.
pub proof fn lemma_common_len_exists(a: Seq<u8>, b: Seq<u8>, from: int) -> (n: int)
    requires
        0 <= from <= a.len(),
        from <= b.len(),
        a.take(from) == b.take(from),
    ensures
        is_common_len(a, b, n),
    decreases a.len() - from,
{
    if from < a.len() && from < b.len() && a[from] == b[from] {
        assert(a.take(from + 1) =~= a.take(from).push(a[from]));
        assert(b.take(from + 1) =~= b.take(from).push(b[from]));
        lemma_common_len_exists(a, b, from + 1)
    } else {
        from
    }
}

/// A key that comes before `path` comes before every key that starts with
/// `path`.
pub proof fn lemma_before_path(key: Seq<u8>, path: Seq<u8>, longer: Seq<u8>)
    requires
        lex_lt(key, path),
        path.is_prefix_of(longer),
    ensures
        lex_lt(key, longer),
{
    let n = choose|n: int| lex_lt_at(key, path, n);
    assert(key.take(n) =~= longer.take(n)) by {
        assert forall|i: int| 0 <= i < n implies key[i] == longer[i] by {
            assert(key.take(n)[i] == path.take(n)[i]);
            assert(path[i] == longer.subrange(0, path.len() as int)[i]);
        }
    }
    assert(path[n] == longer.subrange(0, path.len() as int)[n]);
    assert(lex_lt_at(key, longer, n));
}

/// A key that starts with `path` and goes on with byte `x` comes before
/// `path` followed by a larger byte.
pub proof fn lemma_before_later_branch(key: Seq<u8>, path: Seq<u8>, x: u8, y: u8)
    requires
        path.push(x).is_prefix_of(key),
        x < y,
    ensures
        lex_lt(key, path.push(y)),
{
    let n = path.len() as int;
    let branch = path.push(x);
    assert(key.take(n) =~= path.push(y).take(n)) by {
        assert forall|i: int| 0 <= i < n implies key[i] == path.push(y)[i] by {
            assert(branch[i] == key.subrange(0, n + 1)[i]);
        }
    }
    assert(key[n] == x) by {
        assert(branch[n] == key.subrange(0, n + 1)[n]);
    }
    assert(lex_lt_at(key, path.push(y), n));
}

/// A key comes before every longer key that starts with it.
pub proof fn lemma_before_longer(path: Seq<u8>, longer: Seq<u8>)
    requires
        path.is_prefix_of(longer),
        path != longer,
    ensures
        lex_lt(path, longer),
{
    let n = path.len() as int;
    if longer.len() == n {
        assert(longer =~= longer.subrange(0, n));
    }
    assert(path.take(n) =~= longer.take(n));
    assert(lex_lt_at(path, longer, n));
}

/// A key comes before itself followed by a byte.
pub proof fn lemma_before_extension(path: Seq<u8>, y: u8)
    ensures
        lex_lt(path, path.push(y)),
{
    let n = path.len() as int;
    assert(path.take(n) =~= path.push(y).take(n));
    assert(lex_lt_at(path, path.push(y), n));
}

/// A key that comes before `path` followed by a byte comes before `path`
/// followed by a larger byte.
pub proof fn lemma_before_larger_branch(key: Seq<u8>, path: Seq<u8>, x: u8, y: u8)
    requires
        lex_lt(key, path.push(x)),
        x <= y,
    ensures
        lex_lt(key, path.push(y)),
{
    let n = choose|n: int| lex_lt_at(key, path.push(x), n);
    assert(key.take(n) =~= path.push(y).take(n)) by {
        assert forall|i: int| 0 <= i < n implies key[i] == path.push(y)[i] by {
            assert(key.take(n)[i] == path.push(x).take(n)[i]);
        }
    }
    assert(lex_lt_at(key, path.push(y), n));
}

/// Of two keys at most one comes before the other.
pub proof fn lemma_lex_lt_asymmetric(a: Seq<u8>, b: Seq<u8>)
    requires
        lex_lt(a, b),
    ensures
        !lex_lt(b, a),
{
    if lex_lt(b, a) {
        lemma_lex_lt_transitive(a, b, a);
        lemma_lex_lt_irreflexive(a);
    }
}

/// Whether `first` comes before `second` in the lexicographic order.
pub fn key_lt(first: &[u8], second: &[u8]) -> (before: bool)
    ensures
        before == lex_lt(first@, second@),
{
    let n = common_len(first, second);
    let before = if n == first.len() {
        n < second.len()
    } else if n == second.len() {
        false
    } else {
        first[n] < second[n]
    };
    proof {
        if before {
            assert(lex_lt_at(first@, second@, n as int));
        } else if lex_lt(first@, second@) {
            let m = choose|m: int| lex_lt_at(first@, second@, m);
            assert(is_common_len(first@, second@, m));
            lemma_common_len_unique(first@, second@, n as int, m);
        }
    }
    before
}

} // verus!
