//! The inner node with a direct table of 256 child pointers.

use crate::nodes::counting::{
    count_in, lemma_count_add, lemma_count_none, lemma_count_same,
    lemma_count_split,
};
use crate::nodes::header::Header;
use crate::nodes::representation::inner_node_48::{InnerNode48, RestrictedNodeIndex};
use crate::nodes::representation::private::Sealed;
use crate::nodes::representation::{ConcreteNodePtr, InnerNode, Node, NodePtr, NodeType, OpaqueNodePtr};
use vstd::prelude::*;

verus! {

/// Number of entries of `table` under the key bytes `lo..hi` that hold a
/// child.
pub open spec fn table_count<T>(table: Seq<Option<T>>, lo: int, hi: int) -> nat {
    count_in(|b: u8| table[b as int] is Some, lo, hi)
}

/// Two tables that are occupied at the same places count the same.
pub proof fn lemma_table_count_same<T>(a: Seq<Option<T>>, b: Seq<Option<T>>)
    requires
        a.len() == 256,
        b.len() == 256,
        forall|i: int| 0 <= i < 256 ==> (#[trigger] a[i] is Some) == (b[i] is Some),
    ensures
        table_count(a, 0, 256) == table_count(b, 0, 256),
{
    lemma_count_same(|k: u8| a[k as int] is Some, |k: u8| b[k as int] is Some, 0, 256);
}

/// Node that references between 49 and 256 children
#[derive(Debug)]
pub struct InnerNode256<V, const PREFIX_LEN: usize> {
    /// The common node fields.
    pub header: Header<PREFIX_LEN>,
    /// A table that directly maps a key byte (as index) to a child node.
    pub child_pointers: Vec<Option<OpaqueNodePtr<V, PREFIX_LEN>>>,
}

impl<V, const PREFIX_LEN: usize> Sealed for InnerNode256<V, PREFIX_LEN> {

}

impl<V, const PREFIX_LEN: usize> Node<PREFIX_LEN> for InnerNode256<V, PREFIX_LEN> {
    type Value = V;

    open spec fn spec_type() -> NodeType {
        NodeType::Node256
    }

    fn node_type() -> (node_type: NodeType) {
        NodeType::Node256
    }

    open spec fn spec_to_opaque(self) -> OpaqueNodePtr<V, PREFIX_LEN> {
        OpaqueNodePtr(ConcreteNodePtr::Node256(NodePtr(Box::new(self))))
    }

    fn into_opaque(pointer: NodePtr<Self>) -> (opaque: OpaqueNodePtr<V, PREFIX_LEN>) {
        OpaqueNodePtr(ConcreteNodePtr::Node256(pointer))
    }

    fn from_opaque(opaque: OpaqueNodePtr<V, PREFIX_LEN>) -> (pointer: Result<
        NodePtr<Self>,
        OpaqueNodePtr<V, PREFIX_LEN>,
    >) {
        match opaque.0 {
            ConcreteNodePtr::Node256(pointer) => Ok(pointer),
            other => Err(OpaqueNodePtr(other)),
        }
    }
}

impl<V, const PREFIX_LEN: usize> InnerNode256<V, PREFIX_LEN> {
    /// Shrink this node into the next smaller class, moving over children
    /// and prefix information: the children are written in the order of
    /// their key bytes. This node is left without children.
    ///
    /// The node must have no more children than the smaller class holds.
    pub fn shrink(&mut self) -> (node: InnerNode48<V, PREFIX_LEN>)
        requires
            old(self).valid(),
            old(self).spec_header().num_children <= 48,
        ensures
            node.valid(),
            node.spec_header() == old(self).spec_header(),
            forall|b: u8| node.spec_child(b) == old(self).spec_child(b),
            final(self).child_pointers@.len() == 256,
            forall|b: u8| final(self).spec_child(b) is None,
            final(self).header == old(self).header,
    {
        let ghost before = *self;
        let ghost table = self.child_pointers@;
        let ghost occupied = |b: u8| table[b as int] is Some;
        let header = self.header;
        let empty: RestrictedNodeIndex<48> = RestrictedNodeIndex::empty();
        let mut child_indices: [RestrictedNodeIndex<48>; 256] =
            vstd::array::array_fill_for_copy_types(empty);
        proof {
            broadcast use vstd::array::group_array_axioms;

            assert(forall|b: int| 0 <= b < 256 ==> (#[trigger] child_indices@[b]) == empty);
        }
        let mut child_pointers: Vec<OpaqueNodePtr<V, PREFIX_LEN>> = Vec::new();
        let mut key: usize = 0;
        while key < 256
            invariant
                key <= 256,
                table.len() == 256,
                table == before.child_pointers@,
                self.header == before.header,
                occupied == (|b: u8| table[b as int] is Some),
                count_in(occupied, 0, 256) <= 48,
                self.child_pointers@.len() == 256,
                forall|b: int| key <= b < 256 ==> self.child_pointers@[b] == table[b],
                forall|b: int| 0 <= b < key ==> self.child_pointers@[b] is None,
                child_pointers@.len() == count_in(occupied, 0, key as int),
                child_pointers@.len() <= 48,
                forall|b: int| key <= b < 256 ==> (#[trigger] child_indices@[b]).0 == 48,
                forall|b: int|
                    0 <= b < key ==> ((#[trigger] child_indices@[b]).0 == 48 <==> table[b] is None),
                forall|b: int|
                    0 <= b < key && table[b] is Some ==> (#[trigger] child_indices@[b]).0
                        < child_pointers@.len() && table[b] == Some(
                        child_pointers@[child_indices@[b].0 as int],
                    ),
                forall|a: int, b: int|
                    0 <= a < b < key && table[a] is Some && table[b] is Some ==> (
                    #[trigger] child_indices@[a]).0 < (#[trigger] child_indices@[b]).0,
                forall|slot: int|
                    0 <= slot < child_pointers@.len() ==> #[trigger] InnerNode48::<
                        V,
                        PREFIX_LEN,
                    >::slot_used(child_indices@, slot),
            decreases 256 - key,
        {
            proof {
                lemma_count_split(occupied, 0, key as int, key + 1);
                lemma_count_split(occupied, 0, key + 1, 256);
                assert(count_in(occupied, key as int, key + 1) == (if occupied(key as u8) {
                    1nat
                } else {
                    0nat
                })) by {
                    assert(count_in(occupied, key + 1, key + 1) == 0);
                }
            }
            let ghost old_indices = child_indices@;
            let ghost old_children = child_pointers@;
            match self.child_pointers[key].take() {
                Some(child) => {
                    let slot: usize = child_pointers.len();
                    child_indices[key] = RestrictedNodeIndex(slot as u8);
                    child_pointers.push(child);
                    proof {
                        let new_indices = child_indices@;
                        assert forall|other: int|
                            0 <= other < slot + 1 implies #[trigger] InnerNode48::<
                            V,
                            PREFIX_LEN,
                        >::slot_used(new_indices, other) by {
                            if other == slot {
                                assert(new_indices[key as int].0 == other);
                            } else {
                                assert(InnerNode48::<V, PREFIX_LEN>::slot_used(old_indices, other));
                                let b = choose|b: int|
                                    0 <= b < 256 && (#[trigger] old_indices[b]).0 == other;
                                assert(new_indices[b].0 == other);
                            }
                        }
                        assert forall|b: int| 0 <= b < key + 1 && table[b] is Some implies (
                        #[trigger] new_indices[b]).0 < slot + 1 && table[b] == Some(
                            child_pointers@[new_indices[b].0 as int],
                        ) by {
                            if b < key {
                                assert(old_indices[b].0 < slot);
                                assert(child_pointers@[old_indices[b].0 as int]
                                    == old_children[old_indices[b].0 as int]);
                            }
                        }
                        assert forall|a: int, b: int|
                            0 <= a < b < key + 1 && table[a] is Some
                                && table[b] is Some implies (#[trigger] new_indices[a]).0 < (
                        #[trigger] new_indices[b]).0 by {
                            if b < key {
                                assert(old_indices[a].0 < old_indices[b].0);
                            } else {
                                assert(old_indices[a].0 < slot);
                            }
                        }
                    }
                },
                None => {},
            }
            key += 1;
        }
        let node = InnerNode48 { header, child_indices, child_pointers };
        proof {
            let indices = node.child_indices@;
            lemma_count_same(|b: u8| !indices[b as int].spec_is_empty(), occupied, 0, 256);
            assert forall|a: int, b: int|
                0 <= a < 256 && 0 <= b < 256 && a != b && !(#[trigger] indices[a]).spec_is_empty()
                    && !(#[trigger] indices[b]).spec_is_empty() implies indices[a].0
                != indices[b].0 by {
                if a < b {
                    assert(indices[a].0 < indices[b].0);
                } else {
                    assert(indices[b].0 < indices[a].0);
                }
            }
            assert forall|b: u8| node.spec_child(b) == before.spec_child(b) by {
                assert(indices[b as int].0 == 48 <==> table[b as int] is None);
            }
        }
        node
    }
}

impl<V, const PREFIX_LEN: usize> InnerNode<PREFIX_LEN> for InnerNode256<V, PREFIX_LEN> {
    open spec fn spec_header(&self) -> Header<PREFIX_LEN> {
        self.header
    }

    open spec fn spec_child(&self, key_fragment: u8) -> Option<OpaqueNodePtr<V, PREFIX_LEN>> {
        if self.child_pointers@.len() == 256 {
            self.child_pointers@[key_fragment as int]
        } else {
            None
        }
    }

    open spec fn valid(&self) -> bool {
        &&& self.child_pointers@.len() == 256
        &&& self.header.num_children == table_count(self.child_pointers@, 0, 256)
    }

    proof fn lemma_num_children(&self) {
        let table = self.child_pointers@;
        lemma_count_same(
            |b: u8| self.spec_child(b) is Some,
            |b: u8| table[b as int] is Some,
            0,
            256,
        );
    }

    fn from_header(header: Header<PREFIX_LEN>) -> (node: Self) {
        let mut child_pointers: Vec<Option<OpaqueNodePtr<V, PREFIX_LEN>>> = Vec::new();
        let mut i: usize = 0;
        while i < 256
            invariant
                i <= 256,
                child_pointers@.len() == i,
                forall|j: int| 0 <= j < i ==> child_pointers@[j] is None,
            decreases 256 - i,
        {
            child_pointers.push(None);
            i += 1;
        }
        proof {
            let table = child_pointers@;
            lemma_count_none(|b: u8| table[b as int] is Some, 0, 256);
        }
        InnerNode256 { header, child_pointers }
    }

    fn header(&self) -> (header: &Header<PREFIX_LEN>) {
        &self.header
    }

    fn lookup_child(&self, key_fragment: u8) -> (child: Option<&OpaqueNodePtr<V, PREFIX_LEN>>) {
        self.child_pointers[key_fragment as usize].as_ref()
    }

    fn lookup_child_mut(&mut self, key_fragment: u8) -> (child: Option<
        &mut OpaqueNodePtr<V, PREFIX_LEN>,
    >) {
        proof {
            let before = self.child_pointers@;
            assert(before.len() == 256);
            assert forall|after: Seq<Option<OpaqueNodePtr<V, PREFIX_LEN>>>|
                after.len() == 256 && (forall|i: int|
                    0 <= i < 256 ==> (#[trigger] after[i] is Some) == (before[i] is Some)) implies
                #[trigger] table_count(after, 0, 256) == table_count(before, 0, 256) by {
                lemma_table_count_same(after, before);
            }
        }
        if self.child_pointers[key_fragment as usize].is_some() {
            self.child_pointers[key_fragment as usize].as_mut()
        } else {
            None
        }
    }

    fn write_child(&mut self, key_fragment: u8, child_pointer: OpaqueNodePtr<V, PREFIX_LEN>) {
        let ghost before = self.child_pointers@;
        let existed: bool = self.child_pointers[key_fragment as usize].is_some();
        self.child_pointers[key_fragment as usize] = Some(child_pointer);
        if !existed {
            self.header.inc_num_children();
        }
        proof {
            let after = self.child_pointers@;
            if existed {
                lemma_table_count_same(before, after);
            } else {
                lemma_count_add(
                    |b: u8| before[b as int] is Some,
                    |b: u8| after[b as int] is Some,
                    key_fragment,
                );
            }
        }
    }

    fn remove_child(&mut self, key_fragment: u8) -> (child: Option<OpaqueNodePtr<V, PREFIX_LEN>>) {
        let ghost before = self.child_pointers@;
        let child = self.child_pointers[key_fragment as usize].take();
        proof {
            let after = self.child_pointers@;
            if child is Some {
                lemma_count_add(
                    |b: u8| after[b as int] is Some,
                    |b: u8| before[b as int] is Some,
                    key_fragment,
                );
            } else {
                assert(after =~= before);
            }
        }
        if child.is_some() {
            self.header.dec_num_children();
        }
        child
    }

    fn min(&self) -> (entry: (u8, &OpaqueNodePtr<V, PREFIX_LEN>)) {
        let ghost table = self.child_pointers@;
        let mut key: usize = 0;
        while self.child_pointers[key].is_none()
            invariant
                key < 256,
                self.child_pointers@ == table,
                table.len() == 256,
                table_count(table, 0, 256) > 0,
                forall|b: int| 0 <= b < key ==> table[b] is None,
            decreases 256 - key,
        {
            proof {
                if key == 255 {
                    lemma_count_none(|b: u8| table[b as int] is Some, 0, 256);
                }
            }
            key += 1;
        }
        (key as u8, self.child_pointers[key].as_ref().unwrap())
    }

    fn max(&self) -> (entry: (u8, &OpaqueNodePtr<V, PREFIX_LEN>)) {
        let ghost table = self.child_pointers@;
        let mut key: usize = 255;
        while self.child_pointers[key].is_none()
            invariant
                key < 256,
                self.child_pointers@ == table,
                table.len() == 256,
                table_count(table, 0, 256) > 0,
                forall|b: int| key < b < 256 ==> table[b] is None,
            decreases key,
        {
            proof {
                if key == 0 {
                    lemma_count_none(|b: u8| table[b as int] is Some, 0, 256);
                }
            }
            key -= 1;
        }
        (key as u8, self.child_pointers[key].as_ref().unwrap())
    }
}

/// A cursor over the children of an [`InnerNode256`] in the order of their key
/// bytes, which can be advanced from both ends. It walks the table of child pointers and
/// skips the entries without a child.
pub struct InnerNode256Iter<'a, V, const PREFIX_LEN: usize> {
    /// The node whose children the cursor visits.
    pub node: &'a InnerNode256<V, PREFIX_LEN>,
    /// The next key byte from the front.
    pub front: usize,
    /// The key byte behind the next one from the back.
    pub back: usize,
}

impl<'a, V, const PREFIX_LEN: usize> InnerNode256Iter<'a, V, PREFIX_LEN> {
    /// The cursor stands within the key bytes of a valid node.
    pub open spec fn wf(self) -> bool {
        &&& self.node.valid()
        &&& self.front <= 256
        &&& self.back <= 256
    }

    /// The first key byte that the cursor has yet to visit.
    pub open spec fn lo(self) -> int {
        self.front as int
    }

    /// The key byte behind the last one that the cursor has yet to visit.
    pub open spec fn hi(self) -> int {
        self.back as int
    }

    /// Hand out the next child from the front, with its key byte.
    pub fn next(&mut self) -> (item: Option<(u8, &'a OpaqueNodePtr<V, PREFIX_LEN>)>)
        requires
            old(self).wf(),
        ensures
            final(self).wf(),
            final(self).node == old(self).node,
            final(self).hi() == old(self).hi(),
            item matches Some(entry) ==> {
                &&& old(self).lo() <= entry.0 < old(self).hi()
                &&& old(self).node.spec_child(entry.0) == Some(*entry.1)
                &&& forall|x: u8| old(self).lo() <= x < entry.0 ==> old(self).node.spec_child(x) is None
                &&& final(self).lo() == entry.0 + 1
            },
            item is None ==> {
                &&& forall|x: u8|
                    old(self).lo() <= x < old(self).hi() ==> old(self).node.spec_child(x) is None
                &&& final(self).lo() >= final(self).hi()
            },
    {
        let node: &'a InnerNode256<V, PREFIX_LEN> = self.node;
        let ghost start = self.front;
        while self.front < self.back
            invariant
                self.node == node,
                node == old(self).node,
                node.valid(),
                start <= self.front || self.front == start,
                self.front <= 256,
                self.back <= 256,
                self.back == old(self).back,
                start == old(self).front,
                forall|x: u8| start <= x < self.front ==> node.spec_child(x) is None,
            decreases self.back - self.front,
        {
            let key: usize = self.front;
            self.front = key + 1;
            match node.child_pointers[key].as_ref() {
                Some(child) => {
                    return Some((key as u8, child));
                },
                None => {},
            }
        }
        None
    }

    /// Hand out the next child from the back, with its key byte.
    pub fn next_back(&mut self) -> (item: Option<(u8, &'a OpaqueNodePtr<V, PREFIX_LEN>)>)
        requires
            old(self).wf(),
        ensures
            final(self).wf(),
            final(self).node == old(self).node,
            final(self).lo() == old(self).lo(),
            item matches Some(entry) ==> {
                &&& old(self).lo() <= entry.0 < old(self).hi()
                &&& old(self).node.spec_child(entry.0) == Some(*entry.1)
                &&& forall|x: u8| entry.0 < x < old(self).hi() ==> old(self).node.spec_child(x) is None
                &&& final(self).hi() == entry.0
            },
            item is None ==> {
                &&& forall|x: u8|
                    old(self).lo() <= x < old(self).hi() ==> old(self).node.spec_child(x) is None
                &&& final(self).lo() >= final(self).hi()
            },
    {
        let node: &'a InnerNode256<V, PREFIX_LEN> = self.node;
        let ghost end = self.back;
        while self.front < self.back
            invariant
                self.node == node,
                node == old(self).node,
                node.valid(),
                self.front <= 256,
                self.back <= end,
                end <= 256,
                self.front == old(self).front,
                end == old(self).back,
                forall|x: u8| self.back <= x < end ==> node.spec_child(x) is None,
            decreases self.back,
        {
            let key: usize = self.back - 1;
            self.back = key;
            match node.child_pointers[key].as_ref() {
                Some(child) => {
                    return Some((key as u8, child));
                },
                None => {},
            }
        }
        None
    }

    /// The number of children that are left, as a lower and an upper bound.
    pub fn size_hint(&self) -> (hint: (usize, Option<usize>))
        requires
            self.wf(),
        ensures
            hint.0 == 0,
            hint.1 == Some(if self.front <= self.back {
                (self.back - self.front) as usize
            } else {
                0usize
            }),
    {
        if self.front <= self.back {
            (0, Some(self.back - self.front))
        } else {
            (0, Some(0))
        }
    }
}

impl<V, const PREFIX_LEN: usize> InnerNode256<V, PREFIX_LEN> {
    /// Create a cursor over all (key bytes, child pointers) in this inner
    /// node.
    pub fn iter(&self) -> (cursor: InnerNode256Iter<'_, V, PREFIX_LEN>)
        requires
            self.valid(),
        ensures
            cursor.wf(),
            cursor.node == self,
            cursor.front == 0,
            cursor.back == 256,
    {
        InnerNode256Iter { node: self, front: 0, back: 256 }
    }
}

} // verus!
