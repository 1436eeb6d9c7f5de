//! Byte-string helpers shared by the node and search code.

use vstd::prelude::*;

verus! {

/// `n` is the length of the longest common prefix of `left` and `right`:
/// the two agree on their first `n` bytes and either one of them ends
/// there or they differ at index `n`.
pub open spec fn is_common_len(left: Seq<u8>, right: Seq<u8>, n: int) -> bool {
    &&& 0 <= n <= left.len()
    &&& n <= right.len()
    &&& left.take(n) == right.take(n)
    &&& (n < left.len() && n < right.len() ==> left[n] != right[n])
}

/// `s` without its first `from` bytes, or the empty string when `from` is
/// past the end.
pub open spec fn suffix(s: Seq<u8>, from: int) -> Seq<u8> {
    if 0 <= from <= s.len() {
        s.skip(from)
    } else {
        Seq::empty()
    }
}

/// The length of the longest common prefix is unique.
pub proof fn lemma_common_len_unique(left: Seq<u8>, right: Seq<u8>, n: int, m: int)
    requires
        is_common_len(left, right, n),
        is_common_len(left, right, m),
    ensures
        n == m,
{
    if n < m {
        assert(left.take(m)[n] == right.take(m)[n]);
    } else if m < n {
        assert(left.take(n)[m] == right.take(n)[m]);
    }
}

/// Every set of bytes is finite and has at most 256 members.
pub proof fn lemma_byte_set_finite(s: Set<u8>)
    ensures
        s.finite(),
        s.len() <= 256,
{
    let all = vstd::set_lib::set_int_range(0, 256);
    vstd::set_lib::lemma_int_range(0, 256);
    let f = |i: int| i as u8;
    let bytes = all.map(f);
    vstd::set_lib::lemma_map_size_bound(all, bytes, f);
    assert forall|b: u8| s.contains(b) implies bytes.contains(b) by {
        assert(all.contains(b as int) && f(b as int) == b);
    }
    vstd::set_lib::lemma_len_subset(s, bytes);
}

/// How the number of keys of a byte-keyed map changes when one key is put
/// in and all others stay.
pub proof fn lemma_dom_len_insert<T>(before: Map<u8, T>, after: Map<u8, T>, b: u8)
    requires
        after.contains_key(b),
        forall|x: u8| x != b ==> after.contains_key(x) == before.contains_key(x),
    ensures
        after.dom().len() == before.dom().len() + (if before.contains_key(b) { 0int } else { 1int }),
{
    lemma_byte_set_finite(before.dom());
    lemma_byte_set_finite(after.dom());
    assert(after.dom() =~= before.dom().insert(b));
}

/// How the number of keys of a byte-keyed map changes when one key is taken
/// out and all others stay.
pub proof fn lemma_dom_len_remove<T>(before: Map<u8, T>, after: Map<u8, T>, b: u8)
    requires
        !after.contains_key(b),
        forall|x: u8| x != b ==> after.contains_key(x) == before.contains_key(x),
    ensures
        after.dom().len() == before.dom().len() - (if before.contains_key(b) { 1int } else { 0int }),
{
    lemma_byte_set_finite(before.dom());
    lemma_byte_set_finite(after.dom());
    assert(after.dom() =~= before.dom().remove(b));
}

/// Length of the longest common prefix of `left[left_from..]` and
/// `right[right_from..]`.
pub fn common_len_at(left: &[u8], left_from: usize, right: &[u8], right_from: usize) -> (n: usize)
    requires
        left_from <= left@.len(),
        right_from <= right@.len(),
    ensures
        is_common_len(left@.skip(left_from as int), right@.skip(right_from as int), n as int),
{
    let left_rest: usize = left.len() - left_from;
    let right_rest: usize = right.len() - right_from;
    let ghost l = left@.skip(left_from as int);
    let ghost r = right@.skip(right_from as int);
    let mut n: usize = 0;
    while n < left_rest && n < right_rest
        invariant
            left_from <= left@.len() <= usize::MAX,
            right_from <= right@.len() <= usize::MAX,
            left_rest == left@.len() - left_from,
            right_rest == right@.len() - right_from,
            l == left@.skip(left_from as int),
            r == right@.skip(right_from as int),
            n <= left_rest,
            n <= right_rest,
            l.take(n as int) == r.take(n as int),
        ensures
            n < left_rest && n < right_rest ==> l[n as int] != r[n as int],
        decreases left_rest - n,
    {
        if left[left_from + n] != right[right_from + n] {
            break;
        }
        assert(l.take(n + 1) =~= l.take(n as int).push(l[n as int]));
        assert(r.take(n + 1) =~= r.take(n as int).push(r[n as int]));
        n += 1;
    }
    n
}

/// Length of the longest common prefix of two byte strings.
pub fn common_len(left: &[u8], right: &[u8]) -> (n: usize)
    ensures
        is_common_len(left@, right@, n as int),
{
    let n = common_len_at(left, 0, right, 0);
    assert(left@.skip(0) =~= left@);
    assert(right@.skip(0) =~= right@);
    n
}

/// Whether `a[a_from..]` and `b[b_from..]` hold the same bytes.
pub fn suffix_eq(a: &[u8], a_from: usize, b: &[u8], b_from: usize) -> (same: bool)
    requires
        a_from <= a@.len(),
        b_from <= b@.len(),
    ensures
        same == (a@.skip(a_from as int) == b@.skip(b_from as int)),
{
    let n = common_len_at(a, a_from, b, b_from);
    let ghost x = a@.skip(a_from as int);
    let ghost y = b@.skip(b_from as int);
    if n == a.len() - a_from && n == b.len() - b_from {
        assert(x.take(n as int) =~= x);
        assert(y.take(n as int) =~= y);
        true
    } else {
        assert(x != y) by {
            if x == y {
                assert(x.len() == y.len());
                assert(x[n as int] == y[n as int]);
            }
        }
        false
    }
}

/// Appends the bytes of `bytes` to `target`.
pub fn append_bytes(target: &mut Vec<u8>, bytes: &[u8])
    ensures
        final(target)@ == old(target)@ + bytes@,
{
    let mut i: usize = 0;
    while i < bytes.len()
        invariant
            i <= bytes@.len(),
            target@ == old(target)@ + bytes@.take(i as int),
        decreases bytes@.len() - i,
    {
        target.push(bytes[i]);
        assert(old(target)@ + bytes@.take(i + 1) =~= (old(target)@ + bytes@.take(i as int)).push(bytes@[i as int]));
        i += 1;
    }
    assert(bytes@.take(i as int) =~= bytes@);
}

/// Copies a byte slice into a fresh vector.
pub fn to_vec(bytes: &[u8]) -> (v: Vec<u8>)
    ensures
        v@ == bytes@,
{
    let mut v: Vec<u8> = Vec::with_capacity(bytes.len());
    let mut i: usize = 0;
    while i < bytes.len()
        invariant
            i <= bytes@.len(),
            v@ == bytes@.take(i as int),
        decreases bytes@.len() - i,
    {
        v.push(bytes[i]);
        assert(bytes@.take(i + 1) =~= bytes@.take(i as int).push(bytes@[i as int]));
        i += 1;
    }
    assert(bytes@.take(i as int) =~= bytes@);
    v
}

} // verus!
