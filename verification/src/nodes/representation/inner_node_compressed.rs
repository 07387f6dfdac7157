//! The inner nodes that keep a sorted array of key bytes beside their child
//! pointers.

use crate::nodes::counting::{
    count_in, lemma_count_add, lemma_count_none, lemma_count_same, lemma_count_split,
};
use crate::nodes::header::Header;
use crate::nodes::representation::inner_node_48::{index_count, InnerNode48, RestrictedNodeIndex};
use crate::nodes::representation::private::Sealed;
use crate::nodes::representation::{ConcreteNodePtr, InnerNode, Node, NodePtr, NodeType, OpaqueNodePtr};
use vstd::prelude::*;

verus! {

/// One of the first `len` entries of `keys` is the key byte `b`.
pub open spec fn has_key(keys: Seq<u8>, len: int, b: u8) -> bool {
    exists|i: int| 0 <= i < len && #[trigger] keys[i] == b
}

/// A position among the first `len` entries of `keys` that holds the key byte
/// `b`, if there is one.
pub open spec fn key_index(keys: Seq<u8>, len: int, b: u8) -> int {
    choose|i: int| 0 <= i < len && #[trigger] keys[i] == b
}

/// The first `len` entries of `keys` are strictly ascending.
pub open spec fn keys_sorted(keys: Seq<u8>, len: int) -> bool {
    forall|i: int, j: int| 0 <= i < j < len ==> #[trigger] keys[i] < #[trigger] keys[j]
}

/// In a sorted array every key byte has one position.
pub proof fn lemma_key_index(keys: Seq<u8>, len: int, i: int)
    requires
        keys_sorted(keys, len),
        0 <= i < len,
    ensures
        has_key(keys, len, keys[i]),
        key_index(keys, len, keys[i]) == i,
{
    let j = key_index(keys, len, keys[i]);
    if j < i {
        assert(keys[j] < keys[i]);
    }
    if i < j {
        assert(keys[i] < keys[j]);
    }
}

/// A sorted array of `len` key bytes occupies `len` key bytes.
pub proof fn lemma_sorted_count(keys: Seq<u8>, len: int)
    requires
        keys_sorted(keys, len),
        0 <= len,
    ensures
        count_in(|b: u8| has_key(keys, len, b), 0, 256) == len,
    decreases len,
{
    if len == 0 {
        lemma_count_none(|b: u8| has_key(keys, len, b), 0, 256);
    } else {
        lemma_sorted_count(keys, len - 1);
        let last = keys[len - 1];
        assert(!has_key(keys, len - 1, last)) by {
            if has_key(keys, len - 1, last) {
                let i = key_index(keys, len - 1, last);
                assert(keys[i] < keys[len - 1]);
            }
        }
        assert(has_key(keys, len, last));
        assert forall|b: u8| b != last implies has_key(keys, len - 1, b) == has_key(
            keys,
            len,
            b,
        ) by {
            if has_key(keys, len, b) {
                let i = key_index(keys, len, b);
                assert(0 <= i < len - 1 && keys[i] == b);
            }
        }
        lemma_count_add(
            |b: u8| has_key(keys, len - 1, b),
            |b: u8| has_key(keys, len, b),
            last,
        );
    }
}

/// Node type that has a compact representation for key bytes and children
/// pointers.
#[derive(Debug)]
pub struct InnerNodeCompressed<V, const PREFIX_LEN: usize, const SIZE: usize> {
    /// The common node fields.
    pub header: Header<PREFIX_LEN>,
    /// An array that contains single key bytes in the same index as the
    /// `child_pointers` vector contains the matching child tree.
    ///
    /// As many entries as there are child pointers are in use, in ascending
    /// order.
    pub keys: [u8; SIZE],
    /// The child pointers, in the order of their key bytes.
    pub child_pointers: Vec<OpaqueNodePtr<V, PREFIX_LEN>>,
}

/// Node that references between 2 and 4 children
pub type InnerNode4<V, const PREFIX_LEN: usize> = InnerNodeCompressed<V, PREFIX_LEN, 4>;

/// Node that references between 5 and 16 children
pub type InnerNode16<V, const PREFIX_LEN: usize> = InnerNodeCompressed<V, PREFIX_LEN, 16>;

impl<V, const PREFIX_LEN: usize, const SIZE: usize> InnerNodeCompressed<V, PREFIX_LEN, SIZE> {
    /// The child stored under the given key byte, if there is one.
    pub open spec fn compressed_child(&self, key_fragment: u8) -> Option<
        OpaqueNodePtr<V, PREFIX_LEN>,
    > {
        let len = self.child_pointers@.len() as int;
        if len <= SIZE && has_key(self.keys@, len, key_fragment) {
            Some(self.child_pointers@[key_index(self.keys@, len, key_fragment)])
        } else {
            None
        }
    }

    /// The invariant of the representation: the header counts the child
    /// pointers, which fit the key array, and the keys in use are strictly
    /// ascending.
    pub open spec fn compressed_valid(&self) -> bool {
        &&& self.child_pointers@.len() == self.header.num_children
        &&& self.child_pointers@.len() <= SIZE <= 256
        &&& keys_sorted(self.keys@, self.child_pointers@.len() as int)
    }

    /// In a valid node the header counts the occupied key bytes.
    pub proof fn lemma_compressed_num_children(&self)
        requires
            self.compressed_valid(),
        ensures
            self.header.num_children == count_in(
                |b: u8| self.compressed_child(b) is Some,
                0,
                256,
            ),
    {
        let keys = self.keys@;
        let len = self.child_pointers@.len() as int;
        lemma_sorted_count(keys, len);
        lemma_count_same(
            |b: u8| self.compressed_child(b) is Some,
            |b: u8| has_key(keys, len, b),
            0,
            256,
        );
    }

    /// The child at position `i` is the child under the key byte at position
    /// `i`.
    pub proof fn lemma_child_at(&self, i: int)
        requires
            self.compressed_valid(),
            0 <= i < self.child_pointers@.len(),
        ensures
            self.compressed_child(self.keys@[i]) == Some(self.child_pointers@[i]),
    {
        lemma_key_index(self.keys@, self.child_pointers@.len() as int, i);
    }

    /// Create a node with the given header and no children.
    pub fn compressed_from_header(header: Header<PREFIX_LEN>) -> (node: Self)
        ensures
            node.header == header,
            node.child_pointers@.len() == 0,
            forall|b: u8| node.compressed_child(b) is None,
            header.num_children == 0 && SIZE <= 256 ==> node.compressed_valid(),
    {
        InnerNodeCompressed {
            header,
            keys: vstd::array::array_fill_for_copy_types(0u8),
            child_pointers: Vec::new(),
        }
    }

    /// Find the position of the given key byte among the keys in use.
    ///
    /// For the small node this is a scan of up to 4 bytes; for the large one
    /// it stands for the comparison of all 16 bytes at once, of which the
    /// lowest match counts.
    pub fn lookup_child_index(&self, key_fragment: u8) -> (index: Option<usize>)
        requires
            self.compressed_valid(),
        ensures
            index matches Some(i) ==> i < self.child_pointers@.len() && self.keys@[i as int]
                == key_fragment,
            index is None ==> !has_key(
                self.keys@,
                self.child_pointers@.len() as int,
                key_fragment,
            ),
    {
        let len: usize = self.child_pointers.len();
        let mut i: usize = 0;
        while i < len
            invariant
                i <= len,
                len == self.child_pointers@.len(),
                len <= SIZE,
                forall|j: int| 0 <= j < i ==> self.keys@[j] != key_fragment,
            decreases len - i,
        {
            if self.keys[i] == key_fragment {
                return Some(i);
            }
            i += 1;
        }
        None
    }

    /// Search through this node for a child node that corresponds to the given
    /// key fragment.
    pub fn compressed_lookup_child(&self, key_fragment: u8) -> (child: Option<
        &OpaqueNodePtr<V, PREFIX_LEN>,
    >)
        requires
            self.compressed_valid(),
        ensures
            child matches Some(c) ==> self.compressed_child(key_fragment) == Some(*c),
            child is None ==> self.compressed_child(key_fragment) is None,
    {
        match self.lookup_child_index(key_fragment) {
            Some(i) => {
                proof {
                    self.lemma_child_at(i as int);
                }
                Some(&self.child_pointers[i])
            },
            None => None,
        }
    }

    /// Search through this node for a child node that corresponds to the given
    /// key fragment, to change it in place.
    pub fn compressed_lookup_child_mut(&mut self, key_fragment: u8) -> (child: Option<
        &mut OpaqueNodePtr<V, PREFIX_LEN>,
    >)
        requires
            old(self).compressed_valid(),
        ensures
            child is None ==> old(self).compressed_child(key_fragment) is None && *final(self)
                == *old(self),
            child matches Some(c) ==> {
                &&& old(self).compressed_child(key_fragment) == Some(*c)
                &&& final(self).compressed_valid()
                &&& final(self).header == old(self).header
                &&& final(self).compressed_child(key_fragment) == Some(*final(c))
                &&& forall|b: u8|
                    b != key_fragment ==> final(self).compressed_child(b) == old(
                        self,
                    ).compressed_child(b)
            },
    {
        match self.lookup_child_index(key_fragment) {
            Some(i) => {
                proof {
                    self.lemma_child_at(i as int);
                    let keys = self.keys@;
                    let len = self.child_pointers@.len() as int;
                    assert forall|b: u8| b != key_fragment && has_key(keys, len, b) implies key_index(
                        keys,
                        len,
                        b,
                    ) != i by {}
                }
                Some(&mut self.child_pointers[i])
            },
            None => None,
        }
    }

    /// Write a child pointer with key fragment to this inner node.
    ///
    /// If the key fragment already exists in the node, overwrite the existing
    /// child pointer. Otherwise the place of the new key byte is the place of
    /// the first key byte in use that is greater, and the key bytes and child
    /// pointers from there on move up by one; where no key byte is greater,
    /// the new one goes behind the last.
    pub fn compressed_write_child(
        &mut self,
        key_fragment: u8,
        child_pointer: OpaqueNodePtr<V, PREFIX_LEN>,
    )
        requires
            old(self).compressed_valid(),
            old(self).compressed_child(key_fragment) is Some || old(self).header.num_children
                < SIZE,
        ensures
            final(self).compressed_valid(),
            final(self).compressed_child(key_fragment) == Some(child_pointer),
            forall|b: u8|
                b != key_fragment ==> final(self).compressed_child(b) == old(
                    self,
                ).compressed_child(b),
            final(self).header.prefix_len == old(self).header.prefix_len,
            final(self).header.prefix == old(self).header.prefix,
            final(self).header.num_children == old(self).header.num_children + (if old(
                self,
            ).compressed_child(key_fragment) is Some {
                0int
            } else {
                1int
            }),
    {
        let ghost before = *self;
        let ghost old_keys = self.keys@;
        let len: usize = self.child_pointers.len();
        match self.lookup_child_index(key_fragment) {
            Some(i) => {
                proof {
                    self.lemma_child_at(i as int);
                    assert forall|b: u8|
                        b != key_fragment && has_key(old_keys, len as int, b) implies key_index(
                        old_keys,
                        len as int,
                        b,
                    ) != i by {}
                }
                self.child_pointers[i] = child_pointer;
            },
            None => {
                let mut pos: usize = 0;
                while pos < len && self.keys[pos] < key_fragment
                    invariant
                        pos <= len,
                        len == self.child_pointers@.len(),
                        len <= SIZE,
                        self.keys@ == old_keys,
                        forall|j: int| 0 <= j < pos ==> old_keys[j] < key_fragment,
                    decreases len - pos,
                {
                    pos += 1;
                }
                assert(pos < len ==> old_keys[pos as int] > key_fragment);
                let mut j: usize = len;
                while j > pos
                    invariant
                        pos <= j <= len,
                        len < SIZE,
                        old_keys.len() == SIZE,
                        self.header == before.header,
                        self.child_pointers == before.child_pointers,
                        forall|k: int| 0 <= k <= j ==> self.keys@[k] == old_keys[k],
                        forall|k: int| j < k <= len ==> self.keys@[k] == old_keys[k - 1],
                    decreases j,
                {
                    self.keys[j] = self.keys[j - 1];
                    j -= 1;
                }
                self.keys[pos] = key_fragment;
                self.child_pointers.insert(pos, child_pointer);
                self.header.inc_num_children();
                proof {
                    let new_keys = self.keys@;
                    let new_len = len + 1;
                    assert(keys_sorted(new_keys, new_len)) by {
                        assert forall|a: int, b: int| 0 <= a < b < new_len implies new_keys[a]
                            < new_keys[b] by {
                            let oa = if a < pos { a } else { a - 1 };
                            let ob = if b < pos { b } else { b - 1 };
                            if a != pos && b != pos {
                                assert(new_keys[a] == old_keys[oa]);
                                assert(new_keys[b] == old_keys[ob]);
                                assert(old_keys[oa] < old_keys[ob]);
                            } else if a == pos {
                                assert(new_keys[b] == old_keys[ob]);
                                assert(old_keys[pos as int] > key_fragment);
                                if pos < ob {
                                    assert(old_keys[pos as int] < old_keys[ob]);
                                }
                            } else {
                                assert(new_keys[a] == old_keys[a]);
                                assert(old_keys[a] < key_fragment);
                            }
                        }
                    }
                    lemma_key_index(new_keys, new_len, pos as int);
                    assert forall|b: u8| b != key_fragment implies self.compressed_child(b)
                        == before.compressed_child(b) by {
                        if has_key(old_keys, len as int, b) {
                            let i = key_index(old_keys, len as int, b);
                            let ni = if i < pos { i } else { i + 1 };
                            assert(new_keys[ni] == b);
                            lemma_key_index(new_keys, new_len, ni);
                        } else if has_key(new_keys, new_len, b) {
                            let ni = key_index(new_keys, new_len, b);
                            let i = if ni < pos { ni } else { ni - 1 };
                            assert(old_keys[i] == b);
                        }
                    }
                }
            },
        }
    }

    /// Attempt to remove a child pointer at the key fragment from this inner
    /// node.
    ///
    /// If the key fragment does not exist in this node, return `None`.
    pub fn compressed_remove_child(&mut self, key_fragment: u8) -> (child: Option<
        OpaqueNodePtr<V, PREFIX_LEN>,
    >)
        requires
            old(self).compressed_valid(),
        ensures
            child == old(self).compressed_child(key_fragment),
            final(self).compressed_valid(),
            final(self).compressed_child(key_fragment) is None,
            forall|b: u8|
                b != key_fragment ==> final(self).compressed_child(b) == old(
                    self,
                ).compressed_child(b),
            final(self).header.prefix_len == old(self).header.prefix_len,
            final(self).header.prefix == old(self).header.prefix,
            final(self).header.num_children == old(self).header.num_children - (if child is Some {
                1int
            } else {
                0int
            }),
    {
        let ghost before = *self;
        let ghost old_keys = self.keys@;
        let len: usize = self.child_pointers.len();
        match self.lookup_child_index(key_fragment) {
            None => None,
            Some(pos) => {
                proof {
                    self.lemma_child_at(pos as int);
                }
                let child = self.child_pointers.remove(pos);
                let mut j: usize = pos;
                while j + 1 < len
                    invariant
                        pos <= j < len,
                        len <= SIZE,
                        old_keys.len() == SIZE,
                        self.header == before.header,
                        self.child_pointers@ == before.child_pointers@.remove(pos as int),
                        forall|k: int| 0 <= k < pos ==> self.keys@[k] == old_keys[k],
                        forall|k: int| pos <= k < j ==> self.keys@[k] == old_keys[k + 1],
                        forall|k: int| j <= k < len ==> self.keys@[k] == old_keys[k],
                    decreases len - j,
                {
                    self.keys[j] = self.keys[j + 1];
                    j += 1;
                }
                self.header.dec_num_children();
                proof {
                    let new_keys = self.keys@;
                    let new_len = len - 1;
                    assert(keys_sorted(new_keys, new_len)) by {
                        assert forall|a: int, b: int| 0 <= a < b < new_len implies new_keys[a]
                            < new_keys[b] by {
                            let oa = if a < pos { a } else { a + 1 };
                            let ob = if b < pos { b } else { b + 1 };
                            assert(old_keys[oa] < old_keys[ob]);
                        }
                    }
                    assert(!has_key(new_keys, new_len, key_fragment)) by {
                        if has_key(new_keys, new_len, key_fragment) {
                            let ni = key_index(new_keys, new_len, key_fragment);
                            let i = if ni < pos { ni } else { ni + 1 };
                            assert(old_keys[i] == key_fragment);
                            if i < pos {
                                assert(old_keys[i] < old_keys[pos as int]);
                            } else {
                                assert(old_keys[pos as int] < old_keys[i]);
                            }
                        }
                    }
                    assert forall|b: u8| b != key_fragment implies self.compressed_child(b)
                        == before.compressed_child(b) by {
                        if has_key(old_keys, len as int, b) {
                            let i = key_index(old_keys, len as int, b);
                            let ni = if i < pos { i } else { i - 1 };
                            assert(new_keys[ni] == b);
                            lemma_key_index(new_keys, new_len, ni);
                        } else if has_key(new_keys, new_len, b) {
                            let ni = key_index(new_keys, new_len, b);
                            let i = if ni < pos { ni } else { ni + 1 };
                            assert(old_keys[i] == b);
                        }
                    }
                }
                Some(child)
            },
        }
    }

    /// The first key byte in use and its child.
    pub fn compressed_min(&self) -> (entry: (u8, &OpaqueNodePtr<V, PREFIX_LEN>))
        requires
            self.compressed_valid(),
            self.header.num_children > 0,
        ensures
            self.compressed_child(entry.0) == Some(*entry.1),
            forall|b: u8| b < entry.0 ==> self.compressed_child(b) is None,
    {
        proof {
            self.lemma_child_at(0);
            let keys = self.keys@;
            let len = self.child_pointers@.len() as int;
            assert forall|b: u8| b < keys[0] implies !has_key(keys, len, b) by {
                if has_key(keys, len, b) {
                    let i = key_index(keys, len, b);
                    if i > 0 {
                        assert(keys[0] < keys[i]);
                    }
                }
            }
        }
        (self.keys[0], &self.child_pointers[0])
    }

    /// The last key byte in use and its child.
    pub fn compressed_max(&self) -> (entry: (u8, &OpaqueNodePtr<V, PREFIX_LEN>))
        requires
            self.compressed_valid(),
            self.header.num_children > 0,
        ensures
            self.compressed_child(entry.0) == Some(*entry.1),
            forall|b: u8| b > entry.0 ==> self.compressed_child(b) is None,
    {
        let last: usize = self.child_pointers.len() - 1;
        proof {
            self.lemma_child_at(last as int);
            let keys = self.keys@;
            let len = self.child_pointers@.len() as int;
            assert forall|b: u8| b > keys[last as int] implies !has_key(keys, len, b) by {
                if has_key(keys, len, b) {
                    let i = key_index(keys, len, b);
                    if i < last {
                        assert(keys[i] < keys[last as int]);
                    }
                }
            }
        }
        (self.keys[last], &self.child_pointers[last])
    }
}

impl<V, const PREFIX_LEN: usize, const SIZE: usize> InnerNodeCompressed<V, PREFIX_LEN, SIZE> {
    /// Move the children and the header into a node with a key array of
    /// another size. This node is left without child pointers.
    ///
    /// The new key array must hold all the children.
    pub fn change_block_size<const NEW_SIZE: usize>(&mut self) -> (node: InnerNodeCompressed<
        V,
        PREFIX_LEN,
        NEW_SIZE,
    >)
        requires
            old(self).compressed_valid(),
            old(self).header.num_children <= NEW_SIZE <= 256,
        ensures
            node.compressed_valid(),
            node.header == old(self).header,
            forall|b: u8| node.compressed_child(b) == old(self).compressed_child(b),
            final(self).child_pointers@.len() == 0,
            final(self).header == old(self).header,
            final(self).keys == old(self).keys,
    {
        let ghost before = *self;
        let len: usize = self.child_pointers.len();
        let mut keys: [u8; NEW_SIZE] = vstd::array::array_fill_for_copy_types(0u8);
        let mut i: usize = 0;
        while i < len
            invariant
                i <= len,
                len <= SIZE,
                len <= NEW_SIZE,
                len == self.child_pointers@.len(),
                *self == before,
                forall|j: int| 0 <= j < i ==> keys@[j] == self.keys@[j],
            decreases len - i,
        {
            keys[i] = self.keys[i];
            i += 1;
        }
        let mut child_pointers: Vec<OpaqueNodePtr<V, PREFIX_LEN>> = Vec::new();
        core::mem::swap(&mut self.child_pointers, &mut child_pointers);
        let node = InnerNodeCompressed { header: self.header, keys, child_pointers };
        proof {
            let old_keys = before.keys@;
            let new_keys = node.keys@;
            assert(keys_sorted(new_keys, len as int)) by {
                assert forall|a: int, b: int| 0 <= a < b < len implies new_keys[a]
                    < new_keys[b] by {
                    assert(old_keys[a] < old_keys[b]);
                }
            }
            assert forall|b: u8| node.compressed_child(b) == before.compressed_child(b) by {
                if has_key(old_keys, len as int, b) {
                    let i = key_index(old_keys, len as int, b);
                    assert(new_keys[i] == b);
                    lemma_key_index(new_keys, len as int, i);
                } else if has_key(new_keys, len as int, b) {
                    let i = key_index(new_keys, len as int, b);
                    assert(old_keys[i] == b);
                }
            }
        }
        node
    }
}

impl<V, const PREFIX_LEN: usize> InnerNodeCompressed<V, PREFIX_LEN, 4> {
    /// Grow this node into the next larger class, moving over children and
    /// prefix information. This node is left without child pointers.
    pub fn grow(&mut self) -> (node: InnerNode16<V, PREFIX_LEN>)
        requires
            old(self).valid(),
        ensures
            node.valid(),
            node.spec_header() == old(self).spec_header(),
            forall|b: u8| node.spec_child(b) == old(self).spec_child(b),
            final(self).child_pointers@.len() == 0,
            final(self).header == old(self).header,
            final(self).keys == old(self).keys,
    {
        self.change_block_size::<16>()
    }
}

impl<V, const PREFIX_LEN: usize> InnerNodeCompressed<V, PREFIX_LEN, 16> {
    /// Shrink this node into the next smaller class, moving over children
    /// and prefix information. This node is left without child pointers.
    ///
    /// The node must have no more children than the smaller class holds.
    pub fn shrink(&mut self) -> (node: InnerNode4<V, PREFIX_LEN>)
        requires
            old(self).valid(),
            old(self).spec_header().num_children <= 4,
        ensures
            node.valid(),
            node.spec_header() == old(self).spec_header(),
            forall|b: u8| node.spec_child(b) == old(self).spec_child(b),
            final(self).child_pointers@.len() == 0,
            final(self).header == old(self).header,
            final(self).keys == old(self).keys,
    {
        self.change_block_size::<4>()
    }

    /// Grow this node into the next larger class, moving over children and
    /// prefix information: the entry of the index table under each key byte
    /// in use is the position of that key byte. This node is left without
    /// child pointers.
    pub fn grow(&mut self) -> (node: InnerNode48<V, PREFIX_LEN>)
        requires
            old(self).valid(),
        ensures
            node.valid(),
            node.spec_header() == old(self).spec_header(),
            forall|b: u8| node.spec_child(b) == old(self).spec_child(b),
            final(self).child_pointers@.len() == 0,
            final(self).header == old(self).header,
            final(self).keys == old(self).keys,
    {
        let ghost before = *self;
        let ghost keys = self.keys@;
        let len: usize = self.child_pointers.len();
        let empty: RestrictedNodeIndex<48> = RestrictedNodeIndex::empty();
        let mut child_indices: [RestrictedNodeIndex<48>; 256] =
            vstd::array::array_fill_for_copy_types(empty);
        proof {
            broadcast use vstd::array::group_array_axioms;

            assert(forall|b: int| 0 <= b < 256 ==> (#[trigger] child_indices@[b]) == empty);
        }
        let mut i: usize = 0;
        while i < len
            invariant
                i <= len,
                len <= 16,
                len == self.child_pointers@.len(),
                *self == before,
                keys == before.keys@,
                keys_sorted(keys, len as int),
                forall|b: int|
                    0 <= b < 256 ==> ((#[trigger] child_indices@[b]).0 == (if has_key(
                        keys,
                        i as int,
                        b as u8,
                    ) {
                        key_index(keys, i as int, b as u8) as u8
                    } else {
                        48u8
                    })),
            decreases len - i,
        {
            child_indices[self.keys[i] as usize] = RestrictedNodeIndex(i as u8);
            proof {
                assert forall|b: int| 0 <= b < 256 implies ((#[trigger] child_indices@[b]).0 == (
                if has_key(keys, i + 1, b as u8) {
                    key_index(keys, i + 1, b as u8) as u8
                } else {
                    48u8
                })) by {
                    assert(keys_sorted(keys, i + 1)) by {
                        assert forall|x: int, y: int| 0 <= x < y < i + 1 implies keys[x]
                            < keys[y] by {}
                    }
                    assert(keys_sorted(keys, i as int)) by {
                        assert forall|x: int, y: int| 0 <= x < y < i implies keys[x] < keys[y] by {}
                    }
                    if b == keys[i as int] {
                        lemma_key_index(keys, i + 1, i as int);
                    } else if has_key(keys, i as int, b as u8) {
                        let k = key_index(keys, i as int, b as u8);
                        lemma_key_index(keys, i + 1, k);
                    } else if has_key(keys, i + 1, b as u8) {
                        let k = key_index(keys, i + 1, b as u8);
                        assert(k < i);
                    }
                }
            }
            i += 1;
        }
        let mut child_pointers: Vec<OpaqueNodePtr<V, PREFIX_LEN>> = Vec::new();
        core::mem::swap(&mut self.child_pointers, &mut child_pointers);
        let node = InnerNode48 { header: self.header, child_indices, child_pointers };
        proof {
            let indices = node.child_indices@;
            assert forall|slot: int| 0 <= slot < len implies #[trigger] InnerNode48::<
                V,
                PREFIX_LEN,
            >::slot_used(indices, slot) by {
                lemma_key_index(keys, len as int, slot);
                assert(indices[keys[slot] as int].0 == slot);
            }
            assert forall|a: int, b: int|
                0 <= a < 256 && 0 <= b < 256 && a != b && !(#[trigger] indices[a]).spec_is_empty()
                    && !(#[trigger] indices[b]).spec_is_empty() implies indices[a].0
                != indices[b].0 by {
                let x = key_index(keys, len as int, a as u8);
                let y = key_index(keys, len as int, b as u8);
                assert(keys[x] == a && keys[y] == b);
            }
            lemma_sorted_count(keys, len as int);
            lemma_count_same(
                |b: u8| !indices[b as int].spec_is_empty(),
                |b: u8| has_key(keys, len as int, b),
                0,
                256,
            );
            assert(index_count(indices, 0, 256) == len);
        }
        node
    }
}

impl<V, const PREFIX_LEN: usize> Sealed for InnerNodeCompressed<V, PREFIX_LEN, 4> {

}

impl<V, const PREFIX_LEN: usize> Node<PREFIX_LEN> for InnerNodeCompressed<V, PREFIX_LEN, 4> {
    type Value = V;

    open spec fn spec_type() -> NodeType {
        NodeType::Node4
    }

    fn node_type() -> (node_type: NodeType) {
        NodeType::Node4
    }

    open spec fn spec_to_opaque(self) -> OpaqueNodePtr<V, PREFIX_LEN> {
        OpaqueNodePtr(ConcreteNodePtr::Node4(NodePtr(Box::new(self))))
    }

    fn into_opaque(pointer: NodePtr<Self>) -> (opaque: OpaqueNodePtr<V, PREFIX_LEN>) {
        OpaqueNodePtr(ConcreteNodePtr::Node4(pointer))
    }

    fn from_opaque(opaque: OpaqueNodePtr<V, PREFIX_LEN>) -> (pointer: Result<
        NodePtr<Self>,
        OpaqueNodePtr<V, PREFIX_LEN>,
    >) {
        match opaque.0 {
            ConcreteNodePtr::Node4(pointer) => Ok(pointer),
            other => Err(OpaqueNodePtr(other)),
        }
    }
}

impl<V, const PREFIX_LEN: usize> InnerNode<PREFIX_LEN> for InnerNodeCompressed<
    V,
    PREFIX_LEN,
    4,
> {
    open spec fn spec_header(&self) -> Header<PREFIX_LEN> {
        self.header
    }

    open spec fn spec_child(&self, key_fragment: u8) -> Option<OpaqueNodePtr<V, PREFIX_LEN>> {
        self.compressed_child(key_fragment)
    }

    open spec fn valid(&self) -> bool {
        self.compressed_valid()
    }

    proof fn lemma_num_children(&self) {
        self.lemma_compressed_num_children();
        lemma_count_same(
            |b: u8| self.spec_child(b) is Some,
            |b: u8| self.compressed_child(b) is Some,
            0,
            256,
        );
    }

    fn from_header(header: Header<PREFIX_LEN>) -> (node: Self) {
        Self::compressed_from_header(header)
    }

    fn header(&self) -> (header: &Header<PREFIX_LEN>) {
        &self.header
    }

    fn lookup_child(&self, key_fragment: u8) -> (child: Option<&OpaqueNodePtr<V, PREFIX_LEN>>) {
        self.compressed_lookup_child(key_fragment)
    }

    fn lookup_child_mut(&mut self, key_fragment: u8) -> (child: Option<
        &mut OpaqueNodePtr<V, PREFIX_LEN>,
    >) {
        self.compressed_lookup_child_mut(key_fragment)
    }

    fn write_child(&mut self, key_fragment: u8, child_pointer: OpaqueNodePtr<V, PREFIX_LEN>) {
        self.compressed_write_child(key_fragment, child_pointer)
    }

    fn remove_child(&mut self, key_fragment: u8) -> (child: Option<OpaqueNodePtr<V, PREFIX_LEN>>) {
        self.compressed_remove_child(key_fragment)
    }

    fn min(&self) -> (entry: (u8, &OpaqueNodePtr<V, PREFIX_LEN>)) {
        self.compressed_min()
    }

    fn max(&self) -> (entry: (u8, &OpaqueNodePtr<V, PREFIX_LEN>)) {
        self.compressed_max()
    }
}

impl<V, const PREFIX_LEN: usize> Sealed for InnerNodeCompressed<V, PREFIX_LEN, 16> {

}

impl<V, const PREFIX_LEN: usize> Node<PREFIX_LEN> for InnerNodeCompressed<V, PREFIX_LEN, 16> {
    type Value = V;

    open spec fn spec_type() -> NodeType {
        NodeType::Node16
    }

    fn node_type() -> (node_type: NodeType) {
        NodeType::Node16
    }

    open spec fn spec_to_opaque(self) -> OpaqueNodePtr<V, PREFIX_LEN> {
        OpaqueNodePtr(ConcreteNodePtr::Node16(NodePtr(Box::new(self))))
    }

    fn into_opaque(pointer: NodePtr<Self>) -> (opaque: OpaqueNodePtr<V, PREFIX_LEN>) {
        OpaqueNodePtr(ConcreteNodePtr::Node16(pointer))
    }

    fn from_opaque(opaque: OpaqueNodePtr<V, PREFIX_LEN>) -> (pointer: Result<
        NodePtr<Self>,
        OpaqueNodePtr<V, PREFIX_LEN>,
    >) {
        match opaque.0 {
            ConcreteNodePtr::Node16(pointer) => Ok(pointer),
            other => Err(OpaqueNodePtr(other)),
        }
    }
}

impl<V, const PREFIX_LEN: usize> InnerNode<PREFIX_LEN> for InnerNodeCompressed<
    V,
    PREFIX_LEN,
    16,
> {
    open spec fn spec_header(&self) -> Header<PREFIX_LEN> {
        self.header
    }

    open spec fn spec_child(&self, key_fragment: u8) -> Option<OpaqueNodePtr<V, PREFIX_LEN>> {
        self.compressed_child(key_fragment)
    }

    open spec fn valid(&self) -> bool {
        self.compressed_valid()
    }

    proof fn lemma_num_children(&self) {
        self.lemma_compressed_num_children();
        lemma_count_same(
            |b: u8| self.spec_child(b) is Some,
            |b: u8| self.compressed_child(b) is Some,
            0,
            256,
        );
    }

    fn from_header(header: Header<PREFIX_LEN>) -> (node: Self) {
        Self::compressed_from_header(header)
    }

    fn header(&self) -> (header: &Header<PREFIX_LEN>) {
        &self.header
    }

    fn lookup_child(&self, key_fragment: u8) -> (child: Option<&OpaqueNodePtr<V, PREFIX_LEN>>) {
        self.compressed_lookup_child(key_fragment)
    }

    fn lookup_child_mut(&mut self, key_fragment: u8) -> (child: Option<
        &mut OpaqueNodePtr<V, PREFIX_LEN>,
    >) {
        self.compressed_lookup_child_mut(key_fragment)
    }

    fn write_child(&mut self, key_fragment: u8, child_pointer: OpaqueNodePtr<V, PREFIX_LEN>) {
        self.compressed_write_child(key_fragment, child_pointer)
    }

    fn remove_child(&mut self, key_fragment: u8) -> (child: Option<OpaqueNodePtr<V, PREFIX_LEN>>) {
        self.compressed_remove_child(key_fragment)
    }

    fn min(&self) -> (entry: (u8, &OpaqueNodePtr<V, PREFIX_LEN>)) {
        self.compressed_min()
    }

    fn max(&self) -> (entry: (u8, &OpaqueNodePtr<V, PREFIX_LEN>)) {
        self.compressed_max()
    }
}

/// A cursor over the children of an [`InnerNodeCompressed`] in the order of
/// their key bytes, which can be advanced from both ends.
pub struct InnerNodeCompressedIter<'a, V, const PREFIX_LEN: usize, const SIZE: usize> {
    /// The node whose children the cursor visits.
    pub node: &'a InnerNodeCompressed<V, PREFIX_LEN, SIZE>,
    /// The position of the next child from the front.
    pub front: usize,
    /// The position behind the next child from the back.
    pub back: usize,
}

impl<'a, V, const PREFIX_LEN: usize, const SIZE: usize> InnerNodeCompressedIter<
    'a,
    V,
    PREFIX_LEN,
    SIZE,
> {
    /// The cursor stands within the children of a valid node.
    pub open spec fn wf(self) -> bool {
        &&& self.node.compressed_valid()
        &&& self.front <= self.back <= self.node.child_pointers@.len()
    }

    /// The first key byte that the cursor has yet to visit. All children
    /// that are left stand under key bytes from this one on.
    pub open spec fn lo(self) -> int {
        if self.front < self.node.child_pointers@.len() {
            self.node.keys@[self.front as int] as int
        } else {
            256
        }
    }

    /// The key byte behind the last one that the cursor has yet to visit.
    /// All children that are left stand under key bytes before this one.
    pub open spec fn hi(self) -> int {
        if self.back > 0 {
            self.node.keys@[self.back - 1] + 1
        } else {
            0
        }
    }

    /// Hand out the next child from the front, with its key byte.
    pub fn next(&mut self) -> (item: Option<(u8, &'a OpaqueNodePtr<V, PREFIX_LEN>)>)
        requires
            old(self).wf(),
        ensures
            final(self).wf(),
            final(self).node == old(self).node,
            final(self).hi() == old(self).hi(),
            item matches Some(entry) ==> {
                &&& old(self).lo() <= entry.0 < old(self).hi()
                &&& old(self).node.compressed_child(entry.0) == Some(*entry.1)
                &&& forall|x: u8| old(self).lo() <= x < entry.0 ==> old(self).node.compressed_child(x) is None
                &&& entry.0 < final(self).lo() <= 256
                &&& forall|x: u8|
                    entry.0 < x < final(self).lo() ==> old(self).node.compressed_child(x) is None
            },
            item is None ==> {
                &&& forall|x: u8|
                    old(self).lo() <= x < old(self).hi() ==> old(self).node.compressed_child(x) is None
                &&& *final(self) == *old(self)
            },
    {
        let node: &'a InnerNodeCompressed<V, PREFIX_LEN, SIZE> = self.node;
        if self.front < self.back {
            let index: usize = self.front;
            self.front = index + 1;
            proof {
                let keys = node.keys@;
                let len = node.child_pointers@.len() as int;
                node.lemma_child_at(index as int);
                assert(keys[index as int] <= keys[self.back - 1]) by {
                    if index < self.back - 1 {
                        assert(keys[index as int] < keys[self.back - 1]);
                    }
                }
                if index + 1 < len {
                    assert(keys[index as int] < keys[index + 1]);
                }
                assert forall|x: u8| keys[index as int] < x < self.lo() implies !has_key(
                    keys,
                    len,
                    x,
                ) by {
                    if has_key(keys, len, x) {
                        let i = key_index(keys, len, x);
                        if i < index {
                            assert(keys[i] < keys[index as int]);
                        } else if i > index + 1 {
                            assert(keys[index + 1] < keys[i]);
                        }
                    }
                }
            }
            Some((node.keys[index], &node.child_pointers[index]))
        } else {
            proof {
                let keys = node.keys@;
                if self.back > 0 && self.front < node.child_pointers@.len() {
                    assert(keys[self.back - 1] < keys[self.front as int]);
                }
            }
            None
        }
    }

    /// Hand out the next child from the back, with its key byte.
    pub fn next_back(&mut self) -> (item: Option<(u8, &'a OpaqueNodePtr<V, PREFIX_LEN>)>)
        requires
            old(self).wf(),
        ensures
            final(self).wf(),
            final(self).node == old(self).node,
            final(self).lo() == old(self).lo(),
            item matches Some(entry) ==> {
                &&& old(self).lo() <= entry.0 < old(self).hi()
                &&& old(self).node.compressed_child(entry.0) == Some(*entry.1)
                &&& forall|x: u8| entry.0 < x < old(self).hi() ==> old(self).node.compressed_child(x) is None
                &&& 0 <= final(self).hi() <= entry.0
                &&& forall|x: u8|
                    final(self).hi() <= x < entry.0 ==> old(self).node.compressed_child(x) is None
            },
            item is None ==> {
                &&& forall|x: u8|
                    old(self).lo() <= x < old(self).hi() ==> old(self).node.compressed_child(x) is None
                &&& *final(self) == *old(self)
            },
    {
        let node: &'a InnerNodeCompressed<V, PREFIX_LEN, SIZE> = self.node;
        if self.front < self.back {
            let index: usize = self.back - 1;
            self.back = index;
            proof {
                let keys = node.keys@;
                let len = node.child_pointers@.len() as int;
                node.lemma_child_at(index as int);
                assert(keys[self.front as int] <= keys[index as int]) by {
                    if self.front < index {
                        assert(keys[self.front as int] < keys[index as int]);
                    }
                }
                if index > 0 {
                    assert(keys[index - 1] < keys[index as int]);
                }
                assert forall|x: u8| self.hi() <= x < keys[index as int] implies !has_key(
                    keys,
                    len,
                    x,
                ) by {
                    if has_key(keys, len, x) {
                        let i = key_index(keys, len, x);
                        if i > index {
                            assert(keys[index as int] < keys[i]);
                        } else if i < index - 1 {
                            assert(keys[i] < keys[index - 1]);
                        }
                    }
                }
            }
            Some((node.keys[index], &node.child_pointers[index]))
        } else {
            proof {
                let keys = node.keys@;
                if self.back > 0 && self.front < node.child_pointers@.len() {
                    assert(keys[self.back - 1] < keys[self.front as int]);
                }
            }
            None
        }
    }

    /// The number of children that are left, as a lower and an upper bound.
    pub fn size_hint(&self) -> (hint: (usize, Option<usize>))
        requires
            self.wf(),
        ensures
            hint.0 == self.back - self.front,
            hint.1 == Some(hint.0),
    {
        let left: usize = self.back - self.front;
        (left, Some(left))
    }

    /// The cursor with the same end that starts at the given position.
    pub open spec fn from_position(self, front: usize) -> Self {
        InnerNodeCompressedIter { node: self.node, front, back: self.back }
    }

    /// There is one child for each position that the cursor has yet to
    /// visit among the key bytes that it has yet to visit.
    pub proof fn lemma_pending_positions(self)
        requires
            self.wf(),
        ensures
            self.back - self.front <= count_in(
                |b: u8| self.node.compressed_child(b) is Some,
                self.lo(),
                self.hi(),
            ),
        decreases self.back - self.front,
    {
        if self.front < self.back {
            let occupied = |b: u8| self.node.compressed_child(b) is Some;
            let keys = self.node.keys@;
            let first = keys[self.front as int];
            let rest = self.from_position((self.front + 1) as usize);
            rest.lemma_pending_positions();
            self.node.lemma_child_at(self.front as int);
            assert(first <= keys[self.back - 1]) by {
                if self.front < self.back - 1 {
                    assert(keys[self.front as int] < keys[self.back - 1]);
                }
            }
            assert(count_in(occupied, first as int, self.hi()) == 1 + count_in(
                occupied,
                first + 1,
                self.hi(),
            ));
            if self.front + 1 < self.back {
                assert(keys[self.front as int] < keys[self.front + 1]);
                assert(keys[self.front + 1] <= keys[self.back - 1]) by {
                    if self.front + 1 < self.back - 1 {
                        assert(keys[self.front + 1] < keys[self.back - 1]);
                    }
                }
                lemma_count_split(occupied, first + 1, rest.lo(), self.hi());
            }
        }
    }
}

impl<V, const PREFIX_LEN: usize, const SIZE: usize> InnerNodeCompressed<V, PREFIX_LEN, SIZE> {
    /// Create a cursor over all (key bytes, child pointers) in this inner
    /// node.
    pub fn iter(&self) -> (cursor: InnerNodeCompressedIter<'_, V, PREFIX_LEN, SIZE>)
        requires
            self.compressed_valid(),
        ensures
            cursor.wf(),
            cursor.node == self,
            cursor.front == 0,
            cursor.back == self.child_pointers@.len(),
            forall|x: u8| x < cursor.lo() ==> self.compressed_child(x) is None,
            forall|x: u8| cursor.hi() <= x ==> self.compressed_child(x) is None,
    {
        let back: usize = self.child_pointers.len();
        proof {
            let keys = self.keys@;
            let len = self.child_pointers@.len() as int;
            assert forall|x: u8| has_key(keys, len, x) implies keys[0] <= x <= keys[len - 1] by {
                let i = key_index(keys, len, x);
                if 0 < i {
                    assert(keys[0] < keys[i]);
                }
                if i < len - 1 {
                    assert(keys[i] < keys[len - 1]);
                }
            }
        }
        InnerNodeCompressedIter { node: self, front: 0, back }
    }
}

} // verus!
