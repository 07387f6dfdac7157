//! Copies of whole trees.

use crate::nodes::counting::{
    count_in, lemma_count_bound, lemma_count_none, lemma_count_same, lemma_count_split,
};
use crate::nodes::header::Header;
use crate::nodes::operations::iterator::InnerNodeIter;
use crate::nodes::representation::inner_node_256::InnerNode256;
use crate::nodes::representation::inner_node_48::InnerNode48;
use crate::nodes::representation::inner_node_compressed::{InnerNode16, InnerNode4};
use crate::nodes::representation::{
    ConcreteNodePtr, InnerNode, LeafNode, Node, NodePtr, NodeType, OpaqueNodePtr,
};
use vstd::pervasive::cloned;
use vstd::prelude::*;

verus! {

impl<V: Clone, const PREFIX_LEN: usize> OpaqueNodePtr<V, PREFIX_LEN> {
    /// The subtree below this node is a copy of the subtree below `source`.
    ///
    /// A leaf is a copy of a leaf with the same key whose value is a clone of
    /// the value of that leaf. An inner node is a copy of a valid inner node
    /// of the same type with the same header where it has copies of the
    /// children of that node under the same key bytes.
    pub open spec fn clone_of(self, source: Self) -> bool
        decreases self,
    {
        if self.is_leaf() {
            &&& source.is_leaf()
            &&& self.leaf().key@ == source.leaf().key@
            &&& cloned(source.leaf().value, self.leaf().value)
        } else {
            &&& !source.is_leaf()
            &&& self.node_valid()
            &&& self.spec_node_type() == source.spec_node_type()
            &&& self.spec_header() == source.spec_header()
            &&& forall|b: u8|
                #![trigger self.child(b)]
                match self.child(b) {
                    Some(child) => source.child(b) is Some && child.clone_of(
                        source.child(b).unwrap(),
                    ),
                    None => source.child(b) is None,
                }
        }
    }

    /// Do a deep clone recursively, by allocating new nodes
    pub fn deep_clone(&self) -> (copy: Self)
        requires
            self.subtree_valid(),
        ensures
            copy.clone_of(*self),
        decreases self, 1int,
    {
        proof {
            if !self.is_leaf() {
                self.lemma_children_counted();
                lemma_count_bound(|b: u8| self.child(b) is Some, 0, 256);
            }
        }
        match &self.0 {
            ConcreteNodePtr::LeafNode(leaf) => {
                let key = vstd::slice::slice_to_vec(leaf.0.key.as_slice());
                let value = leaf.0.value.clone();
                NodePtr::allocate_node_ptr(LeafNode::new(key, value)).to_opaque()
            },
            ConcreteNodePtr::Node4(inner) => {
                let mut node: InnerNode4<V, PREFIX_LEN> = InnerNode4::<
                    V,
                    PREFIX_LEN,
                >::from_header(without_children(&inner.0.header));
                clone_children(self, &mut node);
                NodePtr::allocate_node_ptr(node).to_opaque()
            },
            ConcreteNodePtr::Node16(inner) => {
                let mut node: InnerNode16<V, PREFIX_LEN> = InnerNode16::<
                    V,
                    PREFIX_LEN,
                >::from_header(without_children(&inner.0.header));
                clone_children(self, &mut node);
                NodePtr::allocate_node_ptr(node).to_opaque()
            },
            ConcreteNodePtr::Node48(inner) => {
                let mut node: InnerNode48<V, PREFIX_LEN> = InnerNode48::<
                    V,
                    PREFIX_LEN,
                >::from_header(without_children(&inner.0.header));
                clone_children(self, &mut node);
                NodePtr::allocate_node_ptr(node).to_opaque()
            },
            ConcreteNodePtr::Node256(inner) => {
                let mut node: InnerNode256<V, PREFIX_LEN> = InnerNode256::<
                    V,
                    PREFIX_LEN,
                >::from_header(without_children(&inner.0.header));
                clone_children(self, &mut node);
                NodePtr::allocate_node_ptr(node).to_opaque()
            },
        }
    }
}

/// A header with the same prefix that counts no children.
pub fn without_children<const PREFIX_LEN: usize>(header: &Header<PREFIX_LEN>) -> (empty: Header<
    PREFIX_LEN,
>)
    ensures
        empty.num_children == 0,
        empty.prefix_len == header.prefix_len,
        empty.prefix == header.prefix,
{
    Header { num_children: 0, prefix_len: header.prefix_len, prefix: header.prefix }
}

/// Write deep clones of the children of `source` to `target`, an inner node
/// without children that can hold them, under their key bytes.
pub fn clone_children<V: Clone, const PREFIX_LEN: usize, N: InnerNode<PREFIX_LEN, Value = V>>(
    source: &OpaqueNodePtr<V, PREFIX_LEN>,
    target: &mut N,
)
    requires
        !source.is_leaf(),
        source.subtree_valid(),
        old(target).valid(),
        old(target).spec_header().num_children == 0,
        forall|b: u8| old(target).spec_child(b) is None,
        source.spec_header().num_children <= N::spec_type().spec_upper_capacity(),
    ensures
        final(target).valid(),
        final(target).spec_header().prefix_len == old(target).spec_header().prefix_len,
        final(target).spec_header().prefix == old(target).spec_header().prefix,
        final(target).spec_header().num_children == source.spec_header().num_children,
        forall|b: u8|
            #![trigger final(target).spec_child(b)]
            match final(target).spec_child(b) {
                Some(child) => source.child(b) is Some && child.clone_of(source.child(b).unwrap()),
                None => source.child(b) is None,
            },
    decreases source, 0int,
{
    let ghost occupied = |b: u8| source.child(b) is Some;
    let mut cursor = InnerNodeIter::new(source);
    let ghost first = cursor.lo();
    let ghost hi = cursor.hi();
    proof {
        source.lemma_children_counted();
        if first <= hi {
            lemma_count_split(occupied, 0, first, 256);
            lemma_count_split(occupied, first, hi, 256);
            lemma_count_none(occupied, 0, first);
            lemma_count_none(occupied, hi, 256);
        } else {
            lemma_count_none(occupied, 0, 256);
        }
    }
    loop
        invariant
            !source.is_leaf(),
            source.subtree_valid(),
            cursor.wf(),
            cursor.node() == *source,
            cursor.hi() == hi,
            hi <= 256,
            occupied == (|b: u8| source.child(b) is Some),
            forall|x: u8| hi <= x ==> source.child(x) is None,
            target.valid(),
            target.spec_header().prefix_len == old(target).spec_header().prefix_len,
            target.spec_header().prefix == old(target).spec_header().prefix,
            source.spec_header().num_children <= N::spec_type().spec_upper_capacity(),
            target.spec_header().num_children + count_in(occupied, cursor.lo(), hi)
                == source.spec_header().num_children,
            forall|b: u8|
                #![trigger target.spec_child(b)]
                b < cursor.lo() ==> match target.spec_child(b) {
                    Some(child) => source.child(b) is Some && child.clone_of(
                        source.child(b).unwrap(),
                    ),
                    None => source.child(b) is None,
                },
            forall|b: u8| cursor.lo() <= b ==> target.spec_child(b) is None,
        decreases count_in(occupied, cursor.lo(), hi),
    {
        let ghost before = cursor;
        let ghost earlier = *target;
        match cursor.next() {
            Some(entry) => {
                let copy = entry.1.deep_clone();
                proof {
                    let lo = before.lo();
                    let next = cursor.lo();
                    lemma_count_split(occupied, lo, entry.0 as int, hi);
                    lemma_count_none(occupied, lo, entry.0 as int);
                    assert(count_in(occupied, entry.0 as int, hi) == 1 + count_in(
                        occupied,
                        entry.0 + 1,
                        hi,
                    ));
                    if next <= hi {
                        lemma_count_split(occupied, entry.0 + 1, next, hi);
                        lemma_count_none(occupied, entry.0 + 1, next);
                    } else {
                        lemma_count_none(occupied, entry.0 + 1, hi);
                    }
                }
                target.write_child(entry.0, copy);
                proof {
                    assert forall|b: u8|
                        #![trigger target.spec_child(b)]
                        b < cursor.lo() implies match target.spec_child(b) {
                        Some(child) => source.child(b) is Some && child.clone_of(
                            source.child(b).unwrap(),
                        ),
                        None => source.child(b) is None,
                    } by {
                        if b != entry.0 {
                            assert(target.spec_child(b) == earlier.spec_child(b));
                        }
                    }
                    assert forall|b: u8| cursor.lo() <= b implies target.spec_child(b) is None by {
                        assert(target.spec_child(b) == earlier.spec_child(b));
                    }
                }
            },
            None => {
                proof {
                    if before.lo() <= hi {
                        lemma_count_none(occupied, before.lo(), hi);
                    }
                    assert forall|b: u8| #![trigger target.spec_child(b)] match target.spec_child(
                        b,
                    ) {
                        Some(child) => source.child(b) is Some && child.clone_of(
                            source.child(b).unwrap(),
                        ),
                        None => source.child(b) is None,
                    } by {}
                }
                return ;
            },
        }
    }
}

} // verus!
