//! The header shared by all inner nodes.

use vstd::prelude::*;

verus! {

/// The common fields of every inner node: the number of children and the
/// compressed path (the prefix) that all keys stored below the node share.
///
/// At most `PREFIX_LEN` bytes of the prefix are stored inline. The true length
/// of the prefix is tracked separately and may exceed the inline buffer, in
/// which case the remaining bytes are read from any leaf below the node.
#[derive(Clone, Copy, Debug, PartialEq, Eq)]
pub struct Header<const PREFIX_LEN: usize> {
    /// Number of children of the node.
    pub num_children: u16,
    /// True length of the prefix, which may be larger than `PREFIX_LEN`.
    pub prefix_len: usize,
    /// Inline storage for the first bytes of the prefix.
    pub prefix: [u8; PREFIX_LEN],
}

impl<const PREFIX_LEN: usize> Header<PREFIX_LEN> {
    /// Number of prefix bytes that are stored inline.
    pub open spec fn inline_len(self) -> int {
        if self.prefix_len <= PREFIX_LEN {
            self.prefix_len as int
        } else {
            PREFIX_LEN as int
        }
    }

    /// The prefix bytes that are stored inline.
    pub open spec fn inline_prefix(self) -> Seq<u8> {
        self.prefix@.subrange(0, self.inline_len())
    }

    /// Create a header without children whose prefix has the true length
    /// `prefix_len` and whose inline bytes are taken from the start of
    /// `prefix`.
    ///
    /// Inline bytes past the end of `prefix` are zero.
    pub fn new(prefix: &[u8], prefix_len: usize) -> (header: Self)
        ensures
            header.num_children == 0,
            header.prefix_len == prefix_len,
            forall|i: int|
                0 <= i < PREFIX_LEN ==> header.prefix@[i] == (if i < prefix@.len() {
                    prefix@[i]
                } else {
                    0u8
                }),
    {
        let mut bytes: [u8; PREFIX_LEN] = vstd::array::array_fill_for_copy_types(0u8);
        proof {
            broadcast use vstd::array::group_array_axioms;

            assert(forall|j: int| 0 <= j < PREFIX_LEN ==> bytes@[j] == 0u8);
        }
        let len: usize = if prefix.len() < PREFIX_LEN {
            prefix.len()
        } else {
            PREFIX_LEN
        };
        let mut i: usize = 0;
        while i < len
            invariant
                i <= len,
                len <= PREFIX_LEN,
                len <= prefix@.len(),
                forall|j: int| 0 <= j < i ==> bytes@[j] == prefix@[j],
                forall|j: int| i <= j < PREFIX_LEN ==> bytes@[j] == 0u8,
            decreases len - i,
        {
            bytes[i] = prefix[i];
            i += 1;
        }
        Header { num_children: 0, prefix_len, prefix: bytes }
    }

    /// Create a header with no children and an empty prefix.
    pub fn empty() -> (header: Self)
        ensures
            header.num_children == 0,
            header.prefix_len == 0,
            header.inline_prefix() == Seq::<u8>::empty(),
            forall|i: int| 0 <= i < PREFIX_LEN ==> header.prefix@[i] == 0u8,
    {
        proof {
            broadcast use vstd::array::group_array_axioms;

        }
        Header {
            num_children: 0,
            prefix_len: 0,
            prefix: vstd::array::array_fill_for_copy_types(0u8),
        }
    }

    /// The inline portion of the prefix.
    pub fn read_prefix(&self) -> (bytes: &[u8])
        ensures
            bytes@ == self.inline_prefix(),
    {
        let len: usize = self.capped_prefix_len();
        vstd::slice::slice_subrange(self.prefix.as_slice(), 0, len)
    }

    /// The true length of the prefix.
    pub fn prefix_len(&self) -> (len: usize)
        ensures
            len == self.prefix_len,
    {
        self.prefix_len
    }

    /// The number of prefix bytes stored inline: the smaller of the true
    /// prefix length and `PREFIX_LEN`.
    pub fn capped_prefix_len(&self) -> (len: usize)
        ensures
            len == self.inline_len(),
    {
        if self.prefix_len <= PREFIX_LEN {
            self.prefix_len
        } else {
            PREFIX_LEN
        }
    }

    /// The number of children of the node.
    pub fn num_children(&self) -> (n: usize)
        ensures
            n == self.num_children,
    {
        self.num_children as usize
    }

    /// Count one more child.
    pub fn inc_num_children(&mut self)
        requires
            old(self).num_children < u16::MAX,
        ensures
            final(self).num_children == old(self).num_children + 1,
            final(self).prefix_len == old(self).prefix_len,
            final(self).prefix == old(self).prefix,
    {
        self.num_children = self.num_children + 1;
    }

    /// Count one child less.
    pub fn dec_num_children(&mut self)
        requires
            old(self).num_children > 0,
        ensures
            final(self).num_children == old(self).num_children - 1,
            final(self).prefix_len == old(self).prefix_len,
            final(self).prefix == old(self).prefix,
    {
        self.num_children = self.num_children - 1;
    }

    /// Put `bytes` in front of the prefix.
    ///
    /// The true length grows by the number of bytes given. Where the longer
    /// prefix no longer fits the inline buffer, its first `PREFIX_LEN` bytes
    /// stay inline.
    pub fn prepend(&mut self, bytes: &[u8])
        requires
            old(self).prefix_len + bytes@.len() <= usize::MAX,
        ensures
            final(self).num_children == old(self).num_children,
            final(self).prefix_len == old(self).prefix_len + bytes@.len(),
            final(self).inline_prefix() == (bytes@ + old(self).inline_prefix()).subrange(
                0,
                final(self).inline_len(),
            ),
    {
        let previous: [u8; PREFIX_LEN] = self.prefix;
        let ghost before = *self;
        let added: usize = bytes.len();
        self.prefix_len = self.prefix_len + added;
        let len: usize = self.capped_prefix_len();
        let mut i: usize = 0;
        while i < len
            invariant
                i <= len,
                len == self.inline_len(),
                len <= PREFIX_LEN,
                added == bytes@.len(),
                previous == before.prefix,
                self.prefix_len == before.prefix_len + added,
                self.num_children == before.num_children,
                forall|j: int|
                    0 <= j < i ==> self.prefix@[j] == (bytes@ + before.inline_prefix())[j],
            decreases len - i,
        {
            if i < added {
                self.prefix[i] = bytes[i];
            } else {
                self.prefix[i] = previous[i - added];
            }
            i += 1;
        }
        assert(self.inline_prefix() =~= (bytes@ + before.inline_prefix()).subrange(
            0,
            self.inline_len(),
        ));
    }

    /// Discard the first `n` bytes of a prefix that is stored inline as a
    /// whole.
    pub fn trim_left(&mut self, n: usize)
        requires
            n <= old(self).prefix_len <= PREFIX_LEN,
        ensures
            final(self).num_children == old(self).num_children,
            final(self).prefix_len == old(self).prefix_len - n,
            final(self).inline_prefix() == old(self).inline_prefix().subrange(
                n as int,
                old(self).prefix_len as int,
            ),
    {
        let previous: [u8; PREFIX_LEN] = self.prefix;
        let ghost before = *self;
        self.prefix_len = self.prefix_len - n;
        let len: usize = self.prefix_len;
        let mut i: usize = 0;
        while i < len
            invariant
                i <= len,
                len == self.prefix_len,
                len + n == before.prefix_len,
                before.prefix_len <= PREFIX_LEN,
                previous == before.prefix,
                self.num_children == before.num_children,
                forall|j: int| 0 <= j < i ==> self.prefix@[j] == before.prefix@[j + n],
            decreases len - i,
        {
            self.prefix[i] = previous[i + n];
            i += 1;
        }
        assert(self.inline_prefix() =~= before.inline_prefix().subrange(
            n as int,
            before.prefix_len as int,
        ));
    }

    /// Discard the first `n` bytes of the prefix and read the inline bytes of
    /// what remains from `leaf_key`, the key of a leaf below the node, where
    /// `depth` is the position in the key at which the prefix starts.
    pub fn trim_left_with_leaf(&mut self, n: usize, depth: usize, leaf_key: &[u8])
        requires
            n <= old(self).prefix_len,
            depth + old(self).prefix_len <= leaf_key@.len(),
        ensures
            final(self).num_children == old(self).num_children,
            final(self).prefix_len == old(self).prefix_len - n,
            final(self).inline_prefix() == leaf_key@.subrange(
                depth + n,
                depth + n + final(self).inline_len(),
            ),
    {
        let ghost before = *self;
        let key_len: usize = leaf_key.len();
        self.prefix_len = self.prefix_len - n;
        let len: usize = self.capped_prefix_len();
        let begin: usize = depth + n;
        let mut i: usize = 0;
        while i < len
            invariant
                i <= len,
                len == self.inline_len(),
                len <= PREFIX_LEN,
                begin == depth + n,
                begin + len <= leaf_key@.len(),
                key_len == leaf_key@.len(),
                self.prefix_len == before.prefix_len - n,
                self.num_children == before.num_children,
                forall|j: int| 0 <= j < i ==> self.prefix@[j] == leaf_key@[begin + j],
            decreases len - i,
        {
            self.prefix[i] = leaf_key[begin + i];
            i += 1;
        }
        assert(self.inline_prefix() =~= leaf_key@.subrange(
            depth + n,
            depth + n + self.inline_len(),
        ));
    }
}

} // verus!
