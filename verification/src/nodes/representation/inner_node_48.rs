//! The inner node with an index table of 256 entries over 48 child pointers.

use crate::nodes::counting::{
    count_in, lemma_count_add, lemma_count_bound, lemma_count_none, lemma_count_same,
    lemma_count_split,
};
use crate::nodes::header::Header;
use crate::nodes::representation::inner_node_256::InnerNode256;
use crate::nodes::representation::inner_node_compressed::{
    has_key, key_index, keys_sorted, lemma_key_index, InnerNode16, InnerNodeCompressed,
};
use crate::nodes::representation::private::Sealed;
use crate::nodes::representation::{
    into_slots, ConcreteNodePtr, InnerNode, Node, NodePtr, NodeType, OpaqueNodePtr,
};
use core::cmp::Ordering;
use vstd::prelude::*;

verus! {

/// A restricted index only valid from 0 to LIMIT - 1.
#[derive(Debug, Clone, Copy)]
pub struct RestrictedNodeIndex<const LIMIT: u8>(pub u8);

impl<const LIMIT: u8> RestrictedNodeIndex<LIMIT> {
    /// A placeholder index value that indicates that the index is not
    /// occupied
    pub fn empty() -> (index: Self)
        ensures
            index.0 == LIMIT,
    {
        RestrictedNodeIndex(LIMIT)
    }

    /// Return true if the given index is the empty sentinel value
    pub open spec fn spec_is_empty(self) -> bool {
        self.0 == LIMIT
    }

    /// Return true if the given index is the empty sentinel value
    #[verifier::when_used_as_spec(spec_is_empty)]
    pub fn is_empty(self) -> (empty: bool)
        ensures
            empty == self.spec_is_empty(),
    {
        self.0 == LIMIT
    }
}

impl<const LIMIT: u8> PartialEq for RestrictedNodeIndex<LIMIT> {
    fn eq(&self, other: &Self) -> (equal: bool) {
        self.0 == other.0
    }
}

impl<const LIMIT: u8> vstd::std_specs::cmp::PartialEqSpecImpl for RestrictedNodeIndex<LIMIT> {
    open spec fn obeys_eq_spec() -> bool {
        true
    }

    open spec fn eq_spec(&self, other: &Self) -> bool {
        self.0 == other.0
    }
}

impl<const LIMIT: u8> Eq for RestrictedNodeIndex<LIMIT> {

}

impl<const LIMIT: u8> PartialOrd for RestrictedNodeIndex<LIMIT> {
    /// Two indices are ordered by their values where neither is the empty
    /// index, which is not comparable.
    fn partial_cmp(&self, other: &Self) -> (order: Option<Ordering>) {
        if self.0 == LIMIT || other.0 == LIMIT {
            None
        } else if self.0 < other.0 {
            Some(Ordering::Less)
        } else if self.0 == other.0 {
            Some(Ordering::Equal)
        } else {
            Some(Ordering::Greater)
        }
    }
}

impl<const LIMIT: u8> vstd::std_specs::cmp::PartialOrdSpecImpl for RestrictedNodeIndex<LIMIT> {
    open spec fn obeys_partial_cmp_spec() -> bool {
        true
    }

    open spec fn partial_cmp_spec(&self, other: &Self) -> Option<Ordering> {
        if self.0 == LIMIT || other.0 == LIMIT {
            None
        } else if self.0 < other.0 {
            Some(Ordering::Less)
        } else if self.0 == other.0 {
            Some(Ordering::Equal)
        } else {
            Some(Ordering::Greater)
        }
    }
}

impl<const LIMIT: u8> From<RestrictedNodeIndex<LIMIT>> for u8 {
    fn from(src: RestrictedNodeIndex<LIMIT>) -> (byte: Self) {
        src.0
    }
}

impl<const LIMIT: u8> vstd::std_specs::convert::FromSpecImpl<RestrictedNodeIndex<LIMIT>> for u8 {
    open spec fn obeys_from_spec() -> bool {
        true
    }

    open spec fn from_spec(src: RestrictedNodeIndex<LIMIT>) -> Self {
        src.0
    }
}

impl<const LIMIT: u8> From<RestrictedNodeIndex<LIMIT>> for usize {
    fn from(src: RestrictedNodeIndex<LIMIT>) -> (index: Self) {
        src.0 as usize
    }
}

impl<const LIMIT: u8> vstd::std_specs::convert::FromSpecImpl<RestrictedNodeIndex<LIMIT>> for usize {
    open spec fn obeys_from_spec() -> bool {
        true
    }

    open spec fn from_spec(src: RestrictedNodeIndex<LIMIT>) -> Self {
        src.0 as usize
    }
}

impl<const LIMIT: u8> TryFrom<usize> for RestrictedNodeIndex<LIMIT> {
    type Error = TryFromByteError;

    fn try_from(value: usize) -> (index: Result<Self, Self::Error>) {
        if value < LIMIT as usize {
            Ok(RestrictedNodeIndex(value as u8))
        } else {
            Err(TryFromByteError(LIMIT, value))
        }
    }
}

impl<const LIMIT: u8> vstd::std_specs::convert::TryFromSpecImpl<usize> for RestrictedNodeIndex<LIMIT> {
    open spec fn obeys_try_from_spec() -> bool {
        true
    }

    open spec fn try_from_spec(value: usize) -> Result<Self, Self::Error> {
        if value < LIMIT {
            Ok(RestrictedNodeIndex(value as u8))
        } else {
            Err(TryFromByteError(LIMIT, value))
        }
    }
}

impl<const LIMIT: u8> TryFrom<u8> for RestrictedNodeIndex<LIMIT> {
    type Error = TryFromByteError;

    fn try_from(value: u8) -> (index: Result<Self, Self::Error>) {
        if value < LIMIT {
            Ok(RestrictedNodeIndex(value))
        } else {
            Err(TryFromByteError(LIMIT, value as usize))
        }
    }
}

impl<const LIMIT: u8> vstd::std_specs::convert::TryFromSpecImpl<u8> for RestrictedNodeIndex<LIMIT> {
    open spec fn obeys_try_from_spec() -> bool {
        true
    }

    open spec fn try_from_spec(value: u8) -> Result<Self, Self::Error> {
        if value < LIMIT {
            Ok(RestrictedNodeIndex(value))
        } else {
            Err(TryFromByteError(LIMIT, value as usize))
        }
    }
}

/// The error type returned when attempting to construct an index outside
/// the accepted range of a [`RestrictedNodeIndex`]. It holds the limit and
/// the value that was not below it.
#[derive(Debug, Clone, Copy, PartialEq, Eq, Structural)]
pub struct TryFromByteError(pub u8, pub usize);

/// Number of key bytes in `lo..hi` whose entry in the index table is not
/// empty.
pub open spec fn index_count(indices: Seq<RestrictedNodeIndex<48>>, lo: int, hi: int) -> nat {
    count_in(|b: u8| !indices[b as int].spec_is_empty(), lo, hi)
}

/// An entry of the index table under a key byte before `key` points to
/// `slot`.
pub open spec fn slot_taken(indices: Seq<RestrictedNodeIndex<48>>, key: int, slot: int) -> bool {
    exists|b: int| 0 <= b < key && (#[trigger] indices[b]).0 == slot
}

/// The entries under the key bytes up to `key` point to the slots that the
/// entries before `key` point to, and to the slot of the entry under `key`.
pub proof fn lemma_slot_taken_step(indices: Seq<RestrictedNodeIndex<48>>, key: int, slot: int)
    requires
        0 <= key,
    ensures
        slot_taken(indices, key + 1, slot) == (slot_taken(indices, key, slot) || indices[key].0
            == slot),
{
    if slot_taken(indices, key + 1, slot) {
        let b = choose|b: int| 0 <= b < key + 1 && (#[trigger] indices[b]).0 == slot;
        if b != key {
            assert(slot_taken(indices, key, slot));
        }
    }
    if slot_taken(indices, key, slot) {
        let b = choose|b: int| 0 <= b < key && (#[trigger] indices[b]).0 == slot;
        assert(0 <= b < key + 1 && indices[b].0 == slot);
    }
    if indices[key].0 == slot {
        assert(0 <= key < key + 1 && indices[key].0 == slot);
    }
}

/// Node that references between 17 and 48 children
#[derive(Debug)]
pub struct InnerNode48<V, const PREFIX_LEN: usize> {
    /// The common node fields.
    pub header: Header<PREFIX_LEN>,
    /// A table that maps key bytes (as the index) to the index value in
    /// the `child_pointers` vector.
    ///
    /// All the `child_indices` values are `the empty index`
    /// when the node is constructed.
    pub child_indices: [RestrictedNodeIndex<48>; 256],
    /// The child pointers, one for every entry of `child_indices` that is not
    /// empty.
    pub child_pointers: Vec<OpaqueNodePtr<V, PREFIX_LEN>>,
}

impl<V, const PREFIX_LEN: usize> Sealed for InnerNode48<V, PREFIX_LEN> {

}

impl<V, const PREFIX_LEN: usize> Node<PREFIX_LEN> for InnerNode48<V, PREFIX_LEN> {
    type Value = V;

    open spec fn spec_type() -> NodeType {
        NodeType::Node48
    }

    fn node_type() -> (node_type: NodeType) {
        NodeType::Node48
    }

    open spec fn spec_to_opaque(self) -> OpaqueNodePtr<V, PREFIX_LEN> {
        OpaqueNodePtr(ConcreteNodePtr::Node48(NodePtr(Box::new(self))))
    }

    fn into_opaque(pointer: NodePtr<Self>) -> (opaque: OpaqueNodePtr<V, PREFIX_LEN>) {
        OpaqueNodePtr(ConcreteNodePtr::Node48(pointer))
    }

    fn from_opaque(opaque: OpaqueNodePtr<V, PREFIX_LEN>) -> (pointer: Result<
        NodePtr<Self>,
        OpaqueNodePtr<V, PREFIX_LEN>,
    >) {
        match opaque.0 {
            ConcreteNodePtr::Node48(pointer) => Ok(pointer),
            other => Err(OpaqueNodePtr(other)),
        }
    }
}

impl<V, const PREFIX_LEN: usize> InnerNode48<V, PREFIX_LEN> {
    /// Some entry of the index table points to `slot`.
    pub open spec fn slot_used(indices: Seq<RestrictedNodeIndex<48>>, slot: int) -> bool {
        exists|b: int| 0 <= b < 256 && (#[trigger] indices[b]).0 == slot
    }

    /// The index table is consistent with `len` child pointers: every entry
    /// is empty or points to a slot below `len`, no two entries point to the
    /// same slot, and every slot below `len` is pointed to.
    pub open spec fn indices_valid(indices: Seq<RestrictedNodeIndex<48>>, len: int) -> bool {
        &&& 0 <= len <= 48
        &&& forall|b: int|
            0 <= b < 256 ==> (#[trigger] indices[b]).spec_is_empty() || indices[b].0 < len
        &&& forall|a: int, b: int|
            0 <= a < 256 && 0 <= b < 256 && a != b && !(#[trigger] indices[a]).spec_is_empty()
                && !(#[trigger] indices[b]).spec_is_empty() ==> indices[a].0 != indices[b].0
        &&& forall|slot: int| 0 <= slot < len ==> #[trigger] Self::slot_used(indices, slot)
        &&& index_count(indices, 0, 256) == len
    }

    /// Return the initialized portions of the child pointer array.
    pub fn initialized_child_pointers(&self) -> (pointers: &[OpaqueNodePtr<V, PREFIX_LEN>])
        ensures
            pointers@ == self.child_pointers@,
    {
        self.child_pointers.as_slice()
    }
}

impl<V, const PREFIX_LEN: usize> InnerNode48<V, PREFIX_LEN> {
    /// Grow this node into the next larger class, moving over children and
    /// prefix information: each child goes to the entry of the table under
    /// its key byte. This node is left without child pointers.
    pub fn grow(&mut self) -> (node: InnerNode256<V, PREFIX_LEN>)
        requires
            old(self).valid(),
        ensures
            node.valid(),
            node.spec_header() == old(self).spec_header(),
            forall|b: u8| node.spec_child(b) == old(self).spec_child(b),
            final(self).child_pointers@.len() == 0,
            final(self).header == old(self).header,
            final(self).child_indices == old(self).child_indices,
    {
        let ghost before = *self;
        let ghost indices = self.child_indices@;
        let header = self.header;
        let mut slots = into_slots(&mut self.child_pointers);
        let mut child_pointers: Vec<Option<OpaqueNodePtr<V, PREFIX_LEN>>> = Vec::new();
        let mut key: usize = 0;
        while key < 256
            invariant
                key <= 256,
                before.valid(),
                indices == before.child_indices@,
                self.child_indices@ == indices,
                self.child_pointers@.len() == 0,
                slots@.len() == before.child_pointers@.len(),
                child_pointers@.len() == key,
                forall|b: u8| b < key ==> child_pointers@[b as int] == before.spec_child(b),
                forall|slot: int|
                    0 <= slot < slots@.len() ==> (#[trigger] slots@[slot]) == (if slot_taken(
                        indices,
                        key as int,
                        slot,
                    ) {
                        None
                    } else {
                        Some(before.child_pointers@[slot])
                    }),
            decreases 256 - key,
        {
            let index = self.child_indices[key];
            if index.is_empty() {
                child_pointers.push(None);
                proof {
                    assert forall|slot: int| 0 <= slot < slots@.len() implies slot_taken(
                        indices,
                        key as int,
                        slot,
                    ) == #[trigger] slot_taken(indices, key + 1, slot) by {
                        lemma_slot_taken_step(indices, key as int, slot);
                    }
                }
            } else {
                let ghost previous = slots@;
                let slot: usize = index.0 as usize;
                proof {
                    if slot_taken(indices, key as int, slot as int) {
                        let b = choose|b: int| 0 <= b < key && (#[trigger] indices[b]).0 == slot;
                        assert(indices[b].0 != indices[key as int].0);
                    }
                }
                let child = slots[slot].take();
                child_pointers.push(child);
                proof {
                    assert forall|other: int| 0 <= other < slots@.len() implies (
                    #[trigger] slots@[other]) == (if slot_taken(indices, key + 1, other) {
                        None
                    } else {
                        Some(before.child_pointers@[other])
                    }) by {
                        lemma_slot_taken_step(indices, key as int, other);
                        if other != slot {
                            assert(slots@[other] == previous[other]);
                        }
                    }
                }
            }
            key += 1;
        }
        proof {
            let table = child_pointers@;
            assert forall|b: u8| (table[b as int] is Some) == !indices[b as int].spec_is_empty() by {
                assert(table[b as int] == before.spec_child(b));
            }
            lemma_count_same(
                |b: u8| table[b as int] is Some,
                |b: u8| !indices[b as int].spec_is_empty(),
                0,
                256,
            );
        }
        InnerNode256 { header, child_pointers }
    }

    /// Shrink this node into the next smaller class, moving over children
    /// and prefix information: the children are written in the order of
    /// their key bytes. This node is left without child pointers.
    ///
    /// The node must have no more children than the smaller class holds.
    pub fn shrink(&mut self) -> (node: InnerNode16<V, PREFIX_LEN>)
        requires
            old(self).valid(),
            old(self).spec_header().num_children <= 16,
        ensures
            node.valid(),
            node.spec_header() == old(self).spec_header(),
            forall|b: u8| node.spec_child(b) == old(self).spec_child(b),
            final(self).child_pointers@.len() == 0,
            final(self).header == old(self).header,
            final(self).child_indices == old(self).child_indices,
    {
        let ghost before = *self;
        let ghost indices = self.child_indices@;
        let header = self.header;
        let mut slots = into_slots(&mut self.child_pointers);
        let mut keys: [u8; 16] = vstd::array::array_fill_for_copy_types(0u8);
        let mut child_pointers: Vec<OpaqueNodePtr<V, PREFIX_LEN>> = Vec::new();
        let mut key: usize = 0;
        while key < 256
            invariant
                key <= 256,
                before.valid(),
                before.header.num_children <= 16,
                indices == before.child_indices@,
                self.child_indices@ == indices,
                self.child_pointers@.len() == 0,
                slots@.len() == before.child_pointers@.len(),
                child_pointers@.len() == index_count(indices, 0, key as int),
                child_pointers@.len() <= 16,
                keys_sorted(keys@, child_pointers@.len() as int),
                forall|i: int| 0 <= i < child_pointers@.len() ==> keys@[i] < key,
                forall|i: int|
                    0 <= i < child_pointers@.len() ==> before.spec_child(keys@[i]) == Some(
                        #[trigger] child_pointers@[i],
                    ),
                forall|b: u8|
                    #![trigger before.spec_child(b)]
                    b < key && before.spec_child(b) is Some ==> has_key(
                        keys@,
                        child_pointers@.len() as int,
                        b,
                    ),
                forall|slot: int|
                    0 <= slot < slots@.len() ==> (#[trigger] slots@[slot]) == (if slot_taken(
                        indices,
                        key as int,
                        slot,
                    ) {
                        None
                    } else {
                        Some(before.child_pointers@[slot])
                    }),
            decreases 256 - key,
        {
            let index = self.child_indices[key];
            proof {
                let occupied = |b: u8| !indices[b as int].spec_is_empty();
                lemma_count_split(occupied, 0, key as int, key + 1);
                lemma_count_split(occupied, 0, key + 1, 256);
                assert(count_in(occupied, key as int, key + 1) == (if occupied(key as u8) {
                    1nat
                } else {
                    0nat
                })) by {
                    assert(count_in(occupied, key + 1, key + 1) == 0);
                }
            }
            if index.is_empty() {
                proof {
                    assert forall|slot: int| 0 <= slot < slots@.len() implies slot_taken(
                        indices,
                        key as int,
                        slot,
                    ) == #[trigger] slot_taken(indices, key + 1, slot) by {
                        lemma_slot_taken_step(indices, key as int, slot);
                    }
                }
            } else {
                let ghost previous = slots@;
                let ghost old_keys = keys@;
                let ghost old_children = child_pointers@;
                let slot: usize = index.0 as usize;
                proof {
                    if slot_taken(indices, key as int, slot as int) {
                        let b = choose|b: int| 0 <= b < key && (#[trigger] indices[b]).0 == slot;
                        assert(indices[b].0 != indices[key as int].0);
                    }
                }
                let len: usize = child_pointers.len();
                assert(previous[slot as int] is Some);
                let child = slots[slot].take();
                assert(len < 16) by {
                    lemma_count_bound(|b: u8| !indices[b as int].spec_is_empty(), key + 1, 256);
                }
                keys[len] = key as u8;
                child_pointers.push(child.unwrap());
                proof {
                    let new_keys = keys@;
                    assert forall|other: int| 0 <= other < slots@.len() implies (
                    #[trigger] slots@[other]) == (if slot_taken(indices, key + 1, other) {
                        None
                    } else {
                        Some(before.child_pointers@[other])
                    }) by {
                        lemma_slot_taken_step(indices, key as int, other);
                        if other != slot {
                            assert(slots@[other] == previous[other]);
                        }
                    }
                    assert(keys_sorted(new_keys, len + 1)) by {
                        assert forall|x: int, y: int| 0 <= x < y < len + 1 implies new_keys[x]
                            < new_keys[y] by {
                            if y < len {
                                assert(old_keys[x] < old_keys[y]);
                            }
                        }
                    }
                    assert forall|b: u8| b < key + 1 && before.spec_child(b) is Some implies has_key(
                        new_keys,
                        len + 1,
                        b,
                    ) by {
                        if b == key {
                            assert(new_keys[len as int] == b);
                        } else {
                            assert(has_key(old_keys, len as int, b));
                            let i = key_index(old_keys, len as int, b);
                            assert(new_keys[i] == b);
                        }
                    }
                    assert forall|i: int| 0 <= i < len + 1 implies before.spec_child(new_keys[i])
                        == Some(#[trigger] child_pointers@[i]) by {
                        if i < len {
                            assert(child_pointers@[i] == old_children[i]);
                            assert(new_keys[i] == old_keys[i]);
                        }
                    }
                }
            }
            key += 1;
        }
        let node = InnerNodeCompressed { header, keys, child_pointers };
        proof {
            let new_keys = node.keys@;
            let len = node.child_pointers@.len() as int;
            assert forall|b: u8| node.spec_child(b) == before.spec_child(b) by {
                if has_key(new_keys, len, b) {
                    let i = key_index(new_keys, len, b);
                    lemma_key_index(new_keys, len, i);
                }
            }
        }
        node
    }
}

impl<V, const PREFIX_LEN: usize> InnerNode<PREFIX_LEN> for InnerNode48<V, PREFIX_LEN> {
    open spec fn spec_header(&self) -> Header<PREFIX_LEN> {
        self.header
    }

    open spec fn spec_child(&self, key_fragment: u8) -> Option<OpaqueNodePtr<V, PREFIX_LEN>> {
        let index = self.child_indices@[key_fragment as int];
        if index.0 < self.child_pointers@.len() && !index.spec_is_empty() {
            Some(self.child_pointers@[index.0 as int])
        } else {
            None
        }
    }

    open spec fn valid(&self) -> bool {
        &&& self.child_pointers@.len() == self.header.num_children
        &&& Self::indices_valid(self.child_indices@, self.child_pointers@.len() as int)
    }

    proof fn lemma_num_children(&self) {
        let indices = self.child_indices@;
        lemma_count_same(
            |b: u8| self.spec_child(b) is Some,
            |b: u8| !indices[b as int].spec_is_empty(),
            0,
            256,
        );
    }

    fn from_header(header: Header<PREFIX_LEN>) -> (node: Self) {
        let empty: RestrictedNodeIndex<48> = RestrictedNodeIndex::empty();
        let child_indices: [RestrictedNodeIndex<48>; 256] = vstd::array::array_fill_for_copy_types(
            empty,
        );
        proof {
            broadcast use vstd::array::group_array_axioms;

            let indices = child_indices@;
            assert forall|b: int| 0 <= b < 256 implies (#[trigger] indices[b]).0 == 48 by {
                assert(indices[b] == empty);
            }
            lemma_count_none(|b: u8| !indices[b as int].spec_is_empty(), 0, 256);
        }
        InnerNode48 { header, child_indices, child_pointers: Vec::new() }
    }

    fn header(&self) -> (header: &Header<PREFIX_LEN>) {
        &self.header
    }

    fn lookup_child(&self, key_fragment: u8) -> (child: Option<&OpaqueNodePtr<V, PREFIX_LEN>>) {
        let index = self.child_indices[key_fragment as usize];
        let child_pointers = self.initialized_child_pointers();
        if !index.is_empty() {
            let idx: usize = index.0 as usize;
            Some(&child_pointers[idx])
        } else {
            None
        }
    }

    fn lookup_child_mut(&mut self, key_fragment: u8) -> (child: Option<
        &mut OpaqueNodePtr<V, PREFIX_LEN>,
    >) {
        let index = self.child_indices[key_fragment as usize];
        if !index.is_empty() {
            let idx: usize = index.0 as usize;
            Some(&mut self.child_pointers[idx])
        } else {
            None
        }
    }

    fn write_child(&mut self, key_fragment: u8, child_pointer: OpaqueNodePtr<V, PREFIX_LEN>) {
        let key_fragment_idx: usize = key_fragment as usize;
        let ghost before = *self;
        let index = self.child_indices[key_fragment_idx];
        if index.is_empty() {
            let child_index: usize = self.child_pointers.len();
            self.child_indices[key_fragment_idx] = RestrictedNodeIndex(child_index as u8);
            self.header.inc_num_children();
            self.child_pointers.push(child_pointer);
            proof {
                let old_indices = before.child_indices@;
                let new_indices = self.child_indices@;
                lemma_count_add(
                    |b: u8| !old_indices[b as int].spec_is_empty(),
                    |b: u8| !new_indices[b as int].spec_is_empty(),
                    key_fragment,
                );
                assert forall|slot: int| 0 <= slot < child_index + 1 implies #[trigger] Self::slot_used(
                    new_indices,
                    slot,
                ) by {
                    if slot == child_index {
                        assert(new_indices[key_fragment as int].0 == slot);
                    } else {
                        assert(Self::slot_used(old_indices, slot));
                        let b = choose|b: int| 0 <= b < 256 && (#[trigger] old_indices[b]).0 == slot;
                        assert(new_indices[b].0 == slot);
                    }
                }
            }
        } else {
            // overwrite existing
            let idx: usize = index.0 as usize;
            self.child_pointers[idx] = child_pointer;
        }
    }

    fn remove_child(&mut self, key_fragment: u8) -> (child: Option<OpaqueNodePtr<V, PREFIX_LEN>>) {
        let restricted_index = self.child_indices[key_fragment as usize];
        if restricted_index.is_empty() {
            return None;
        }
        let ghost before = *self;
        let removed: u8 = restricted_index.0;
        // Take the child pointer out; all the child pointers in higher
        // indices move down by one.
        let child = self.child_pointers.remove(removed as usize);

        // Take all child indices that are greater than the index we're
        // removing, and subtract one so that they remain valid
        let mut i: usize = 0;
        while i < 256
            invariant
                i <= 256,
                before.valid(),
                removed < before.child_pointers@.len(),
                self.header == before.header,
                self.child_pointers@ == before.child_pointers@.remove(removed as int),
                forall|b: int|
                    i <= b < 256 ==> self.child_indices@[b] == before.child_indices@[b],
                forall|b: int|
                    0 <= b < i ==> (#[trigger] self.child_indices@[b]).0 == (if
                        !before.child_indices@[b].spec_is_empty() && before.child_indices@[b].0
                        > removed {
                        (before.child_indices@[b].0 - 1) as u8
                    } else {
                        before.child_indices@[b].0
                    }),
            decreases 256 - i,
        {
            let other = self.child_indices[i];
            if !other.is_empty() && other.0 > removed {
                self.child_indices[i] = RestrictedNodeIndex((other.0 - 1) as u8);
            }
            i += 1;
        }

        self.child_indices[key_fragment as usize] = RestrictedNodeIndex(48u8);
        self.header.dec_num_children();
        proof {
            let old_indices = before.child_indices@;
            let new_indices = self.child_indices@;
            let len = self.child_pointers@.len() as int;
            assert forall|b: int| 0 <= b < 256 && b != key_fragment implies (
            #[trigger] new_indices[b]).spec_is_empty() == old_indices[b].spec_is_empty() by {}
            lemma_count_add(
                |b: u8| !new_indices[b as int].spec_is_empty(),
                |b: u8| !old_indices[b as int].spec_is_empty(),
                key_fragment,
            );
            assert forall|slot: int| 0 <= slot < len implies #[trigger] Self::slot_used(
                new_indices,
                slot,
            ) by {
                let target = if slot < removed { slot } else { slot + 1 };
                assert(Self::slot_used(old_indices, target));
                let b = choose|b: int| 0 <= b < 256 && (#[trigger] old_indices[b]).0 == target;
                assert(new_indices[b].0 == slot);
            }
            assert forall|b: u8| b != key_fragment implies self.spec_child(b)
                == before.spec_child(b) by {
                assert(new_indices[b as int].spec_is_empty() == old_indices[b as int].spec_is_empty());
            }
        }
        Some(child)
    }

    fn min(&self) -> (entry: (u8, &OpaqueNodePtr<V, PREFIX_LEN>)) {
        let ghost indices = self.child_indices@;
        let mut key: usize = 0;
        while self.child_indices[key].is_empty()
            invariant
                key < 256,
                self.child_indices@ == indices,
                index_count(indices, 0, 256) > 0,
                forall|b: int| 0 <= b < key ==> (#[trigger] indices[b]).spec_is_empty(),
            decreases 256 - key,
        {
            proof {
                if key == 255 {
                    lemma_count_none(|b: u8| !indices[b as int].spec_is_empty(), 0, 256);
                }
            }
            key += 1;
        }
        let idx: usize = self.child_indices[key].0 as usize;
        (key as u8, &self.child_pointers[idx])
    }

    fn max(&self) -> (entry: (u8, &OpaqueNodePtr<V, PREFIX_LEN>)) {
        let ghost indices = self.child_indices@;
        let mut key: usize = 255;
        while self.child_indices[key].is_empty()
            invariant
                key < 256,
                self.child_indices@ == indices,
                index_count(indices, 0, 256) > 0,
                forall|b: int| key < b < 256 ==> (#[trigger] indices[b]).spec_is_empty(),
            decreases key,
        {
            proof {
                if key == 0 {
                    lemma_count_none(|b: u8| !indices[b as int].spec_is_empty(), 0, 256);
                }
            }
            key -= 1;
        }
        let idx: usize = self.child_indices[key].0 as usize;
        (key as u8, &self.child_pointers[idx])
    }
}

/// A cursor over the children of an [`InnerNode48`] in the order of their key
/// bytes, which can be advanced from both ends. It walks the index table and
/// skips the entries without a child.
pub struct Node48Iter<'a, V, const PREFIX_LEN: usize> {
    /// The node whose children the cursor visits.
    pub node: &'a InnerNode48<V, PREFIX_LEN>,
    /// The next key byte from the front.
    pub front: usize,
    /// The key byte behind the next one from the back.
    pub back: usize,
}

impl<'a, V, const PREFIX_LEN: usize> Node48Iter<'a, V, PREFIX_LEN> {
    /// The cursor stands within the key bytes of a valid node.
    pub open spec fn wf(self) -> bool {
        &&& self.node.valid()
        &&& self.front <= 256
        &&& self.back <= 256
    }

    /// The first key byte that the cursor has yet to visit.
    pub open spec fn lo(self) -> int {
        self.front as int
    }

    /// The key byte behind the last one that the cursor has yet to visit.
    pub open spec fn hi(self) -> int {
        self.back as int
    }

    /// Hand out the next child from the front, with its key byte.
    pub fn next(&mut self) -> (item: Option<(u8, &'a OpaqueNodePtr<V, PREFIX_LEN>)>)
        requires
            old(self).wf(),
        ensures
            final(self).wf(),
            final(self).node == old(self).node,
            final(self).hi() == old(self).hi(),
            item matches Some(entry) ==> {
                &&& old(self).lo() <= entry.0 < old(self).hi()
                &&& old(self).node.spec_child(entry.0) == Some(*entry.1)
                &&& forall|x: u8| old(self).lo() <= x < entry.0 ==> old(self).node.spec_child(x) is None
                &&& final(self).lo() == entry.0 + 1
            },
            item is None ==> {
                &&& forall|x: u8|
                    old(self).lo() <= x < old(self).hi() ==> old(self).node.spec_child(x) is None
                &&& final(self).lo() >= final(self).hi()
            },
    {
        let node: &'a InnerNode48<V, PREFIX_LEN> = self.node;
        let ghost start = self.front;
        while self.front < self.back
            invariant
                self.node == node,
                node == old(self).node,
                node.valid(),
                start <= self.front || self.front == start,
                self.front <= 256,
                self.back <= 256,
                self.back == old(self).back,
                start == old(self).front,
                forall|x: u8| start <= x < self.front ==> node.spec_child(x) is None,
            decreases self.back - self.front,
        {
            let key: usize = self.front;
            self.front = key + 1;
            let index = node.child_indices[key];
            if !index.is_empty() {
                let slot: usize = index.0 as usize;
                return Some((key as u8, &node.child_pointers[slot]));
            }
        }
        None
    }

    /// Hand out the next child from the back, with its key byte.
    pub fn next_back(&mut self) -> (item: Option<(u8, &'a OpaqueNodePtr<V, PREFIX_LEN>)>)
        requires
            old(self).wf(),
        ensures
            final(self).wf(),
            final(self).node == old(self).node,
            final(self).lo() == old(self).lo(),
            item matches Some(entry) ==> {
                &&& old(self).lo() <= entry.0 < old(self).hi()
                &&& old(self).node.spec_child(entry.0) == Some(*entry.1)
                &&& forall|x: u8| entry.0 < x < old(self).hi() ==> old(self).node.spec_child(x) is None
                &&& final(self).hi() == entry.0
            },
            item is None ==> {
                &&& forall|x: u8|
                    old(self).lo() <= x < old(self).hi() ==> old(self).node.spec_child(x) is None
                &&& final(self).lo() >= final(self).hi()
            },
    {
        let node: &'a InnerNode48<V, PREFIX_LEN> = self.node;
        let ghost end = self.back;
        while self.front < self.back
            invariant
                self.node == node,
                node == old(self).node,
                node.valid(),
                self.front <= 256,
                self.back <= end,
                end <= 256,
                self.front == old(self).front,
                end == old(self).back,
                forall|x: u8| self.back <= x < end ==> node.spec_child(x) is None,
            decreases self.back,
        {
            let key: usize = self.back - 1;
            self.back = key;
            let index = node.child_indices[key];
            if !index.is_empty() {
                let slot: usize = index.0 as usize;
                return Some((key as u8, &node.child_pointers[slot]));
            }
        }
        None
    }

    /// The number of children that are left, as a lower and an upper bound.
    pub fn size_hint(&self) -> (hint: (usize, Option<usize>))
        requires
            self.wf(),
        ensures
            hint.0 == 0,
            hint.1 == Some(if self.front <= self.back {
                (self.back - self.front) as usize
            } else {
                0usize
            }),
    {
        if self.front <= self.back {
            (0, Some(self.back - self.front))
        } else {
            (0, Some(0))
        }
    }
}

impl<V, const PREFIX_LEN: usize> InnerNode48<V, PREFIX_LEN> {
    /// Create a cursor over all (key bytes, child pointers) in this inner
    /// node.
    pub fn iter(&self) -> (cursor: Node48Iter<'_, V, PREFIX_LEN>)
        requires
            self.valid(),
        ensures
            cursor.wf(),
            cursor.node == self,
            cursor.front == 0,
            cursor.back == 256,
    {
        Node48Iter { node: self, front: 0, back: 256 }
    }
}

} // verus!
