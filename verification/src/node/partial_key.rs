//! Storage for a node's compressed path: short prefixes sit inline in the
//! node, longer ones spill to the heap.

use vstd::prelude::*;
use crate::util::{common_len, is_common_len, to_vec};

verus! {

/// The longest prefix that is kept inline.
pub const MAX_PREFIX_LEN: usize = 16;

/// An inline prefix: the first `partial_prefix_len` bytes of a fixed buffer.
pub struct Fixed {
    partial_prefix: [u8; 16],
    partial_prefix_len: usize,
}

/// A node's partial prefix, inline while it fits and spilled otherwise.
pub enum PartialKey {
    FixSized(Fixed),
    VarSized(Vec<u8>),
}

impl Fixed {
    /// The length does not exceed the inline buffer.
    pub closed spec fn wf(self) -> bool {
        self.partial_prefix_len <= MAX_PREFIX_LEN
    }

    /// The bytes of the prefix.
    pub closed spec fn view(self) -> Seq<u8> {
        self.partial_prefix@.take(self.partial_prefix_len as int)
    }

    /// An inline prefix that holds `slice`.
    pub fn new(slice: &[u8]) -> (fixed: Self)
        requires
            slice@.len() <= MAX_PREFIX_LEN,
        ensures
            fixed.wf(),
            fixed.view() == slice@,
    {
        let mut fixed = Fixed { partial_prefix: [0u8; 16], partial_prefix_len: 0 };
        fixed.update(slice);
        fixed
    }

    /// The bytes of the prefix.
    pub fn partial_prefix(&self) -> (bytes: &[u8])
        requires
            self.wf(),
        ensures
            bytes@ == self.view(),
    {
        vstd::slice::slice_subrange(self.partial_prefix.as_slice(), 0, self.partial_prefix_len)
    }

    /// Overwrites the prefix with `new_data`.
    pub fn set_data(&mut self, new_data: &[u8])
        requires
            new_data@.len() <= MAX_PREFIX_LEN,
        ensures
            final(self).wf(),
            final(self).view() == new_data@,
    {
        let mut i: usize = 0;
        while i < new_data.len()
            invariant
                i <= new_data@.len() <= MAX_PREFIX_LEN,
                self.partial_prefix@.take(i as int) == new_data@.take(i as int),
            decreases new_data@.len() - i,
        {
            let ghost before = self.partial_prefix@;
            self.partial_prefix[i] = new_data[i];
            assert(self.partial_prefix@.take(i + 1) =~= new_data@.take(i + 1)) by {
                assert forall|j: int| 0 <= j < i + 1 implies self.partial_prefix@[j] == new_data@[j] by {
                    if j < i {
                        assert(before.take(i as int)[j] == new_data@.take(i as int)[j]);
                    }
                }
            }
            i += 1;
        }
        self.partial_prefix_len = new_data.len();
        assert(new_data@.take(i as int) =~= new_data@);
    }

    /// Overwrites the prefix with `slice`.
    pub fn update(&mut self, slice: &[u8])
        requires
            slice@.len() <= MAX_PREFIX_LEN,
        ensures
            final(self).wf(),
            final(self).view() == slice@,
    {
        self.set_data(slice);
    }
}

impl PartialKey {
    /// Inline storage holds at most `MAX_PREFIX_LEN` bytes, and a prefix is
    /// spilled only when it is longer than that.
    pub closed spec fn wf(self) -> bool {
        match self {
            PartialKey::FixSized(fixed) => fixed.wf(),
            PartialKey::VarSized(bytes) => bytes@.len() > MAX_PREFIX_LEN,
        }
    }

    /// The bytes of the prefix.
    pub closed spec fn view(self) -> Seq<u8> {
        match self {
            PartialKey::FixSized(fixed) => fixed.view(),
            PartialKey::VarSized(bytes) => bytes@,
        }
    }

    /// Whether the prefix is stored inline.
    pub open spec fn is_inline(self) -> bool {
        self is FixSized
    }

    /// A well-formed prefix is inline exactly when it fits.
    pub proof fn lemma_inline_iff_short(self)
        requires
            self.wf(),
        ensures
            self.is_inline() <==> self.view().len() <= MAX_PREFIX_LEN,
    {
    }

    /// A prefix that holds `bytes`, inline when it fits.
    pub fn from_slice(bytes: &[u8]) -> (key: Self)
        ensures
            key.wf(),
            key.view() == bytes@,
    {
        if bytes.len() > MAX_PREFIX_LEN {
            PartialKey::VarSized(to_vec(bytes))
        } else {
            PartialKey::FixSized(Fixed::new(bytes))
        }
    }

    /// The bytes of the prefix.
    pub fn as_slice(&self) -> (bytes: &[u8])
        requires
            self.wf(),
        ensures
            bytes@ == self.view(),
    {
        match self {
            PartialKey::FixSized(prefix) => prefix.partial_prefix(),
            PartialKey::VarSized(key) => key.as_slice(),
        }
    }

    /// The length of the prefix.
    pub fn len(&self) -> (n: usize)
        requires
            self.wf(),
        ensures
            n == self.view().len(),
    {
        self.as_slice().len()
    }

    /// Length of the longest common prefix of this prefix and `key`.
    pub fn common_prefix_len(&self, key: &[u8]) -> (n: usize)
        requires
            self.wf(),
        ensures
            is_common_len(self.view(), key@, n as int),
    {
        common_len(self.as_slice(), key)
    }

    /// Replaces the prefix by `new_partial_key`, moving it inline or to the
    /// heap as its length asks.
    pub fn update(&mut self, new_partial_key: &[u8])
        requires
            old(self).wf(),
        ensures
            final(self).wf(),
            final(self).view() == new_partial_key@,
    {
        if new_partial_key.len() > MAX_PREFIX_LEN {
            *self = PartialKey::VarSized(to_vec(new_partial_key));
        } else {
            match self {
                PartialKey::FixSized(cur_key) => {
                    cur_key.update(new_partial_key);
                },
                PartialKey::VarSized(_) => {
                    *self = PartialKey::FixSized(Fixed::new(new_partial_key));
                },
            }
        }
    }
}

impl Default for PartialKey {
    fn default() -> (key: Self)
        ensures
            key.wf(),
            key.view() == Seq::<u8>::empty(),
    {
        let empty: [u8; 0] = [];
        PartialKey::from_slice(empty.as_slice())
    }
}

} // verus!
