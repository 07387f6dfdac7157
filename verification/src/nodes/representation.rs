//! Trie node representation

use crate::bytes::{bytes_eq, common_prefix, common_prefix_len};
use crate::nodes::counting::count_in;
use crate::nodes::header::Header;
use crate::nodes::operations::minmax::minimum;
use core::ops::Range;
use vstd::prelude::*;

pub mod inner_node_256;
pub mod inner_node_48;
pub mod inner_node_compressed;
pub(crate) mod private;

use inner_node_256::InnerNode256;
use inner_node_48::InnerNode48;
use inner_node_compressed::{InnerNode16, InnerNode4};

verus! {

/// The representation of inner nodes
#[derive(Debug, Clone, Copy, PartialEq, Eq, Structural)]
pub enum NodeType {
    /// Node that references between 2 and 4 children
    Node4,
    /// Node that references between 5 and 16 children
    Node16,
    /// Node that references between 17 and 48 children
    Node48,
    /// Node that references between 49 and 256 children
    Node256,
    /// Node that contains a single value
    Leaf,
}

impl NodeType {
    /// The tag that stands for this node type: a number below 8.
    pub fn to_u8(self) -> (tag: u8)
        ensures
            tag == self.spec_to_u8(),
    {
        match self {
            NodeType::Node4 => 0,
            NodeType::Node16 => 1,
            NodeType::Node48 => 2,
            NodeType::Node256 => 3,
            NodeType::Leaf => 4,
        }
    }

    /// The tag that stands for this node type.
    pub open spec fn spec_to_u8(self) -> u8 {
        match self {
            NodeType::Node4 => 0,
            NodeType::Node16 => 1,
            NodeType::Node48 => 2,
            NodeType::Node256 => 3,
            NodeType::Leaf => 4,
        }
    }

    /// Converts a u8 value to a [`NodeType`]
    ///
    /// `src` must be the tag of a node type.
    pub fn from_u8(src: u8) -> (node_type: NodeType)
        requires
            src <= 4,
        ensures
            node_type.spec_to_u8() == src,
    {
        if src == 0 {
            NodeType::Node4
        } else if src == 1 {
            NodeType::Node16
        } else if src == 2 {
            NodeType::Node48
        } else if src == 3 {
            NodeType::Node256
        } else {
            NodeType::Leaf
        }
    }

    /// Return true if an [`InnerNode`] with the given [`NodeType`] and
    /// specified number of children should be shrunk.
    ///
    /// The node type must not be [`NodeType::Leaf`].
    pub fn should_shrink_inner_node(self, num_children: usize) -> (shrink: bool)
        requires
            self != NodeType::Leaf,
        ensures
            shrink == self.spec_should_shrink(num_children),
    {
        match self {
            NodeType::Node4 => false,
            NodeType::Node16 => num_children <= 4,
            NodeType::Node48 => num_children <= 16,
            NodeType::Node256 => num_children <= 48,
            NodeType::Leaf => false,
        }
    }

    /// An inner node of this type with `num_children` children is due to
    /// shrink: the next smaller type can hold the children. The smallest
    /// inner node never shrinks.
    pub open spec fn spec_should_shrink(self, num_children: usize) -> bool {
        match self {
            NodeType::Node4 => false,
            NodeType::Node16 => num_children <= 4,
            NodeType::Node48 => num_children <= 16,
            NodeType::Node256 => num_children <= 48,
            NodeType::Leaf => false,
        }
    }

    /// Return the range of number of children that each node type accepts.
    pub fn capacity_range(self) -> (range: Range<usize>)
        ensures
            range.start == self.min_children(),
            range.end == self.spec_upper_capacity() + (if self == NodeType::Leaf {
                0int
            } else {
                1int
            }),
    {
        match self {
            NodeType::Node4 => Range { start: 2, end: 5 },
            NodeType::Node16 => Range { start: 5, end: 17 },
            NodeType::Node48 => Range { start: 17, end: 49 },
            NodeType::Node256 => Range { start: 49, end: 257 },
            NodeType::Leaf => Range { start: 0, end: 0 },
        }
    }

    /// The least number of children that a node of this type has in a tree
    /// at rest.
    pub open spec fn min_children(self) -> usize {
        match self {
            NodeType::Node4 => 2,
            NodeType::Node16 => 5,
            NodeType::Node48 => 17,
            NodeType::Node256 => 49,
            NodeType::Leaf => 0,
        }
    }

    /// The next larger type of inner node.
    pub open spec fn grown(self) -> NodeType {
        match self {
            NodeType::Node4 => NodeType::Node16,
            NodeType::Node16 => NodeType::Node48,
            _ => NodeType::Node256,
        }
    }

    /// The next smaller type of inner node.
    pub open spec fn shrunk(self) -> NodeType {
        match self {
            NodeType::Node256 => NodeType::Node48,
            NodeType::Node48 => NodeType::Node16,
            _ => NodeType::Node4,
        }
    }

    /// A node of this type may have `num_children` children in a tree at
    /// rest.
    pub open spec fn accepts(self, num_children: int) -> bool {
        self.min_children() <= num_children <= self.spec_upper_capacity()
    }

    /// The upper bound on the number of child nodes that this
    /// NodeType can have.
    pub open spec fn spec_upper_capacity(self) -> usize {
        match self {
            NodeType::Node4 => 4,
            NodeType::Node16 => 16,
            NodeType::Node48 => 48,
            NodeType::Node256 => 256,
            NodeType::Leaf => 0,
        }
    }

    /// The upper bound on the number of child nodes that this
    /// NodeType can have.
    #[verifier::when_used_as_spec(spec_upper_capacity)]
    pub fn upper_capacity(self) -> (capacity: usize)
        ensures
            capacity == self.spec_upper_capacity(),
    {
        match self {
            NodeType::Node4 => 4,
            NodeType::Node16 => 16,
            NodeType::Node48 => 48,
            NodeType::Node256 => 256,
            NodeType::Leaf => 0,
        }
    }
}

/// Node that contains a single leaf value.
#[derive(Debug, Clone)]
pub struct LeafNode<V, const PREFIX_LEN: usize> {
    /// The leaf value.
    pub value: V,
    /// The full key that the `value` was stored with.
    pub key: Vec<u8>,
}

impl<V, const PREFIX_LEN: usize> LeafNode<V, PREFIX_LEN> {
    /// Create a new leaf node with the given value.
    pub fn new(key: Vec<u8>, value: V) -> (leaf: Self)
        ensures
            leaf.key == key,
            leaf.value == value,
    {
        LeafNode { value, key }
    }

    /// Returns a shared reference to the key contained by this leaf node
    pub fn key_ref(&self) -> (key: &Vec<u8>)
        ensures
            *key == self.key,
    {
        &self.key
    }

    /// Returns a shared reference to the value contained by this leaf node
    pub fn value_ref(&self) -> (value: &V)
        ensures
            *value == self.value,
    {
        &self.value
    }

    /// Returns a mutable reference to the value contained by this leaf node
    pub fn value_mut(&mut self) -> (value: &mut V)
        ensures
            *value == old(self).value,
            final(self).value == *final(value),
            final(self).key == old(self).key,
    {
        &mut self.value
    }

    /// Return shared references to the key and value contained by this leaf
    /// node
    pub fn entry_ref(&self) -> (entry: (&Vec<u8>, &V))
        ensures
            *entry.0 == self.key,
            *entry.1 == self.value,
    {
        (&self.key, &self.value)
    }

    /// Return mutable references to the key and value contained by this leaf
    /// node
    pub fn entry_mut(&mut self) -> (entry: (&mut Vec<u8>, &mut V))
        ensures
            *entry.0 == old(self).key,
            *entry.1 == old(self).value,
            final(self).key == *final(entry.0),
            final(self).value == *final(entry.1),
    {
        (&mut self.key, &mut self.value)
    }

    /// Consume the leaf node and return a tuple of the key and value
    pub fn into_entry(self) -> (entry: (Vec<u8>, V))
        ensures
            entry.0 == self.key,
            entry.1 == self.value,
    {
        (self.key, self.value)
    }

    /// Check that the provided full key is the same one as the stored key.
    pub fn matches_full_key(&self, possible_key: &[u8]) -> (matches: bool)
        ensures
            matches == (self.key@ == possible_key@),
    {
        bytes_eq(self.key.as_slice(), possible_key)
    }
}

impl<V, const PREFIX_LEN: usize> private::Sealed for LeafNode<V, PREFIX_LEN> {

}

impl<V, const PREFIX_LEN: usize> Node<PREFIX_LEN> for LeafNode<V, PREFIX_LEN> {
    type Value = V;

    open spec fn spec_type() -> NodeType {
        NodeType::Leaf
    }

    fn node_type() -> (node_type: NodeType) {
        NodeType::Leaf
    }

    open spec fn spec_to_opaque(self) -> OpaqueNodePtr<V, PREFIX_LEN> {
        OpaqueNodePtr(ConcreteNodePtr::LeafNode(NodePtr(Box::new(self))))
    }

    fn into_opaque(pointer: NodePtr<Self>) -> (opaque: OpaqueNodePtr<V, PREFIX_LEN>) {
        OpaqueNodePtr(ConcreteNodePtr::LeafNode(pointer))
    }

    fn from_opaque(opaque: OpaqueNodePtr<V, PREFIX_LEN>) -> (pointer: Result<
        NodePtr<Self>,
        OpaqueNodePtr<V, PREFIX_LEN>,
    >) {
        match opaque.0 {
            ConcreteNodePtr::LeafNode(pointer) => Ok(pointer),
            other => Err(OpaqueNodePtr(other)),
        }
    }
}

/// An owning pointer to a node.
#[derive(Debug)]
pub struct NodePtr<N>(pub Box<N>);

impl<N> NodePtr<N> {
    /// Allocate the given node on the heap and return a [`NodePtr`] that
    /// owns it.
    pub fn allocate_node_ptr(node: N) -> (pointer: Self)
        ensures
            *pointer.0 == node,
    {
        NodePtr(Box::new(node))
    }

    /// Free the memory of a node created with
    /// [`NodePtr::allocate_node_ptr`] and hand the node out.
    pub fn deallocate_node_ptr(node: Self) -> (inner: N)
        ensures
            inner == *node.0,
    {
        *node.0
    }

    /// Moves `new_value` into the referenced `dest`, returning the previous
    /// `dest` value.
    pub fn replace(dest: &mut Self, new_value: N) -> (previous: N)
        ensures
            previous == *old(dest).0,
            *final(dest).0 == new_value,
    {
        let mut value = new_value;
        core::mem::swap(&mut *dest.0, &mut value);
        value
    }

    /// Returns a shared reference to the node.
    pub fn as_ref(&self) -> (node: &N)
        ensures
            *node == *self.0,
    {
        &*self.0
    }

    /// Returns a unique mutable reference to the node.
    pub fn as_mut(&mut self) -> (node: &mut N)
        ensures
            *node == *old(self).0,
            *final(self).0 == *final(node),
    {
        &mut *self.0
    }
}

impl<V, const PREFIX_LEN: usize> NodePtr<LeafNode<V, PREFIX_LEN>> {
    /// Returns a shared reference to the key and value of the pointed to
    /// [`LeafNode`].
    pub fn as_key_value_ref(&self) -> (entry: (&Vec<u8>, &V))
        ensures
            *entry.0 == self.0.key,
            *entry.1 == self.0.value,
    {
        (&self.0.key, &self.0.value)
    }

    /// Returns a shared reference to the key of the pointed to [`LeafNode`].
    pub fn as_key_ref(&self) -> (key: &Vec<u8>)
        ensures
            *key == self.0.key,
    {
        &self.0.key
    }

    /// Returns a shared reference to the value of the pointed to
    /// [`LeafNode`].
    pub fn as_value_ref(&self) -> (value: &V)
        ensures
            *value == self.0.value,
    {
        &self.0.value
    }

    /// Returns a shared reference to the key and a unique mutable reference
    /// to the value of the pointed to [`LeafNode`].
    pub fn as_key_ref_value_mut(&mut self) -> (entry: (&Vec<u8>, &mut V))
        ensures
            *entry.0 == old(self).0.key,
            *entry.1 == old(self).0.value,
            final(self).0.key == old(self).0.key,
            final(self).0.value == *final(entry.1),
    {
        let leaf = &mut *self.0;
        (&leaf.key, &mut leaf.value)
    }

    /// Returns a unique mutable reference to the value of the pointed to
    /// [`LeafNode`].
    pub fn as_value_mut(&mut self) -> (value: &mut V)
        ensures
            *value == old(self).0.value,
            final(self).0.value == *final(value),
            final(self).0.key == old(self).0.key,
    {
        &mut self.0.value
    }
}

/// An enum that encapsulates pointers to every type of node
#[derive(Debug)]
pub enum ConcreteNodePtr<V, const PREFIX_LEN: usize> {
    /// Node that references between 2 and 4 children
    Node4(NodePtr<InnerNode4<V, PREFIX_LEN>>),
    /// Node that references between 5 and 16 children
    Node16(NodePtr<InnerNode16<V, PREFIX_LEN>>),
    /// Node that references between 17 and 48 children
    Node48(NodePtr<InnerNode48<V, PREFIX_LEN>>),
    /// Node that references between 49 and 256 children
    Node256(NodePtr<InnerNode256<V, PREFIX_LEN>>),
    /// Node that contains a single value
    LeafNode(NodePtr<LeafNode<V, PREFIX_LEN>>),
}

/// An opaque pointer to a node.
///
/// Could be any one of the node types, need to perform a check on the runtime
/// type and then cast to a [`NodePtr`].
#[derive(Debug)]
pub struct OpaqueNodePtr<V, const PREFIX_LEN: usize>(pub ConcreteNodePtr<V, PREFIX_LEN>);

impl<V, const PREFIX_LEN: usize> OpaqueNodePtr<V, PREFIX_LEN> {
    /// The runtime type of the node.
    pub open spec fn spec_node_type(self) -> NodeType {
        match self.0 {
            ConcreteNodePtr::Node4(_) => NodeType::Node4,
            ConcreteNodePtr::Node16(_) => NodeType::Node16,
            ConcreteNodePtr::Node48(_) => NodeType::Node48,
            ConcreteNodePtr::Node256(_) => NodeType::Node256,
            ConcreteNodePtr::LeafNode(_) => NodeType::Leaf,
        }
    }

    /// The node is a leaf.
    pub open spec fn is_leaf(self) -> bool {
        self.0 is LeafNode
    }

    /// The leaf that this pointer points to, where it points to one.
    pub open spec fn leaf(self) -> LeafNode<V, PREFIX_LEN> {
        *self.0->LeafNode_0.0
    }

    /// The header of the inner node that this pointer points to, where it
    /// points to one.
    pub open spec fn spec_header(self) -> Header<PREFIX_LEN> {
        match self.0 {
            ConcreteNodePtr::Node4(n) => n.0.header,
            ConcreteNodePtr::Node16(n) => n.0.header,
            ConcreteNodePtr::Node48(n) => n.0.header,
            ConcreteNodePtr::Node256(n) => n.0.header,
            ConcreteNodePtr::LeafNode(_) => arbitrary(),
        }
    }

    /// The child under the given key byte of the inner node that this
    /// pointer points to. A leaf has no children.
    pub open spec fn child(self, key_fragment: u8) -> Option<OpaqueNodePtr<V, PREFIX_LEN>> {
        match self.0 {
            ConcreteNodePtr::Node4(n) => n.0.spec_child(key_fragment),
            ConcreteNodePtr::Node16(n) => n.0.spec_child(key_fragment),
            ConcreteNodePtr::Node48(n) => n.0.spec_child(key_fragment),
            ConcreteNodePtr::Node256(n) => n.0.spec_child(key_fragment),
            ConcreteNodePtr::LeafNode(_) => None,
        }
    }

    /// The representation of the node that this pointer points to is valid.
    /// This says nothing of the children.
    pub open spec fn node_valid(self) -> bool {
        match self.0 {
            ConcreteNodePtr::Node4(n) => n.0.valid(),
            ConcreteNodePtr::Node16(n) => n.0.valid(),
            ConcreteNodePtr::Node48(n) => n.0.valid(),
            ConcreteNodePtr::Node256(n) => n.0.valid(),
            ConcreteNodePtr::LeafNode(_) => true,
        }
    }

    /// Construct a new opaque node pointer from an existing node pointer.
    pub fn new<N: Node<PREFIX_LEN, Value = V>>(pointer: NodePtr<N>) -> (opaque: Self)
        ensures
            opaque == (*pointer.0).spec_to_opaque(),
    {
        N::into_opaque(pointer)
    }

    /// Return `true` if this pointer points to the specified concrete
    /// [`NodeType`].
    pub fn is<N: Node<PREFIX_LEN>>(&self) -> (is: bool)
        ensures
            is == (self.spec_node_type() == N::spec_type()),
    {
        self.node_type() == N::node_type()
    }

    /// Create a non-opaque node pointer that will eliminate future type
    /// assertions, if the type of the pointed node matches the given
    /// node type. Where it does not, the pointer is handed back.
    pub fn cast<N: Node<PREFIX_LEN, Value = V>>(self) -> (pointer: Result<NodePtr<N>, Self>)
        ensures
            pointer is Ok <==> self.spec_node_type() == N::spec_type(),
            pointer matches Ok(p) ==> (*p.0).spec_to_opaque() == self,
            pointer matches Err(p) ==> p == self,
    {
        N::from_opaque(self)
    }

    /// Cast this opaque pointer type an enum that contains a pointer to the
    /// concrete node type.
    pub fn to_node_ptr(self) -> (pointer: ConcreteNodePtr<V, PREFIX_LEN>)
        ensures
            pointer == self.0,
    {
        self.0
    }

    /// Retrieve the runtime node type information.
    pub fn node_type(&self) -> (node_type: NodeType)
        ensures
            node_type == self.spec_node_type(),
    {
        match &self.0 {
            ConcreteNodePtr::Node4(_) => NodeType::Node4,
            ConcreteNodePtr::Node16(_) => NodeType::Node16,
            ConcreteNodePtr::Node48(_) => NodeType::Node48,
            ConcreteNodePtr::Node256(_) => NodeType::Node256,
            ConcreteNodePtr::LeafNode(_) => NodeType::Leaf,
        }
    }

    /// Get a shared reference to the header if the underlying node has a
    /// header field, otherwise return `None`.
    pub fn header(&self) -> (header: Option<&Header<PREFIX_LEN>>)
        ensures
            header is None <==> self.is_leaf(),
            header matches Some(h) ==> *h == self.spec_header(),
    {
        match &self.0 {
            ConcreteNodePtr::Node4(n) => Some(&n.0.header),
            ConcreteNodePtr::Node16(n) => Some(&n.0.header),
            ConcreteNodePtr::Node48(n) => Some(&n.0.header),
            ConcreteNodePtr::Node256(n) => Some(&n.0.header),
            ConcreteNodePtr::LeafNode(_) => None,
        }
    }

    /// Get a mutable reference to the header if the underlying node has a
    /// header field, otherwise return `None`.
    pub fn header_mut(&mut self) -> (header: Option<&mut Header<PREFIX_LEN>>)
        ensures
            header is None <==> old(self).is_leaf(),
            header is None ==> *final(self) == *old(self),
            header matches Some(h) ==> {
                &&& *h == old(self).spec_header()
                &&& final(self).spec_header() == *final(h)
                &&& final(self).spec_node_type() == old(self).spec_node_type()
                &&& forall|b: u8| final(self).child(b) == old(self).child(b)
                &&& old(self).node_valid() && final(h).num_children == old(
                    self,
                ).spec_header().num_children ==> final(self).node_valid()
            },
    {
        match &mut self.0 {
            ConcreteNodePtr::Node4(n) => Some(&mut n.0.header),
            ConcreteNodePtr::Node16(n) => Some(&mut n.0.header),
            ConcreteNodePtr::Node48(n) => Some(&mut n.0.header),
            ConcreteNodePtr::Node256(n) => Some(&mut n.0.header),
            ConcreteNodePtr::LeafNode(_) => None,
        }
    }

    /// Search through the inner node for a child node that corresponds to
    /// the given key fragment. A leaf has no children.
    pub fn lookup_child(&self, key_fragment: u8) -> (child: Option<&OpaqueNodePtr<V, PREFIX_LEN>>)
        requires
            self.node_valid(),
        ensures
            child matches Some(c) ==> self.child(key_fragment) == Some(*c),
            child is None ==> self.child(key_fragment) is None,
    {
        match &self.0 {
            ConcreteNodePtr::Node4(n) => n.0.lookup_child(key_fragment),
            ConcreteNodePtr::Node16(n) => n.0.lookup_child(key_fragment),
            ConcreteNodePtr::Node48(n) => n.0.lookup_child(key_fragment),
            ConcreteNodePtr::Node256(n) => n.0.lookup_child(key_fragment),
            ConcreteNodePtr::LeafNode(_) => None,
        }
    }

    /// Search through the inner node for a child node that corresponds to
    /// the given key fragment, to change it in place.
    pub fn lookup_child_mut(&mut self, key_fragment: u8) -> (child: Option<
        &mut OpaqueNodePtr<V, PREFIX_LEN>,
    >)
        requires
            old(self).node_valid(),
        ensures
            child is None ==> old(self).child(key_fragment) is None && *final(self) == *old(self),
            child matches Some(c) ==> {
                &&& old(self).child(key_fragment) == Some(*c)
                &&& final(self).node_valid()
                &&& final(self).spec_node_type() == old(self).spec_node_type()
                &&& final(self).spec_header() == old(self).spec_header()
                &&& final(self).child(key_fragment) == Some(*final(c))
                &&& forall|b: u8| b != key_fragment ==> final(self).child(b) == old(self).child(b)
            },
    {
        match &mut self.0 {
            ConcreteNodePtr::Node4(n) => n.0.lookup_child_mut(key_fragment),
            ConcreteNodePtr::Node16(n) => n.0.lookup_child_mut(key_fragment),
            ConcreteNodePtr::Node48(n) => n.0.lookup_child_mut(key_fragment),
            ConcreteNodePtr::Node256(n) => n.0.lookup_child_mut(key_fragment),
            ConcreteNodePtr::LeafNode(_) => None,
        }
    }

    /// Attempt to remove a child pointer at the key fragment from the inner
    /// node. A leaf has no children.
    ///
    /// If the key fragment does not exist in this node, return `None`.
    pub fn remove_child(&mut self, key_fragment: u8) -> (child: Option<
        OpaqueNodePtr<V, PREFIX_LEN>,
    >)
        requires
            old(self).node_valid(),
        ensures
            child == old(self).child(key_fragment),
            final(self).node_valid(),
            final(self).spec_node_type() == old(self).spec_node_type(),
            final(self).child(key_fragment) is None,
            forall|b: u8| b != key_fragment ==> final(self).child(b) == old(self).child(b),
            old(self).is_leaf() ==> *final(self) == *old(self),
            !old(self).is_leaf() ==> {
                &&& final(self).spec_header().prefix_len == old(self).spec_header().prefix_len
                &&& final(self).spec_header().prefix == old(self).spec_header().prefix
                &&& final(self).spec_header().num_children == old(
                    self,
                ).spec_header().num_children - (if child is Some {
                    1int
                } else {
                    0int
                })
            },
    {
        match &mut self.0 {
            ConcreteNodePtr::Node4(n) => n.0.remove_child(key_fragment),
            ConcreteNodePtr::Node16(n) => n.0.remove_child(key_fragment),
            ConcreteNodePtr::Node48(n) => n.0.remove_child(key_fragment),
            ConcreteNodePtr::Node256(n) => n.0.remove_child(key_fragment),
            ConcreteNodePtr::LeafNode(_) => None,
        }
    }

    /// Free the leaf that this pointer points to and hand out its key and
    /// value.
    pub fn into_leaf_entry(self) -> (entry: (Vec<u8>, V))
        requires
            self.is_leaf(),
        ensures
            entry.0 == self.leaf().key,
            entry.1 == self.leaf().value,
    {
        match self.0 {
            ConcreteNodePtr::LeafNode(pointer) => NodePtr::deallocate_node_ptr(pointer).into_entry(),
            _ => unreached(),
        }
    }

    /// The child of the inner node under its lowest key byte, with that
    /// byte. The node must have a child.
    pub fn min_child(&self) -> (entry: (u8, &OpaqueNodePtr<V, PREFIX_LEN>))
        requires
            !self.is_leaf(),
            self.node_valid(),
            self.spec_header().num_children > 0,
        ensures
            self.child(entry.0) == Some(*entry.1),
            forall|b: u8| b < entry.0 ==> self.child(b) is None,
    {
        match &self.0 {
            ConcreteNodePtr::Node4(n) => n.0.min(),
            ConcreteNodePtr::Node16(n) => n.0.min(),
            ConcreteNodePtr::Node48(n) => n.0.min(),
            ConcreteNodePtr::Node256(n) => n.0.min(),
            ConcreteNodePtr::LeafNode(_) => unreached(),
        }
    }

    /// The child of the inner node under its highest key byte, with that
    /// byte. The node must have a child.
    pub fn max_child(&self) -> (entry: (u8, &OpaqueNodePtr<V, PREFIX_LEN>))
        requires
            !self.is_leaf(),
            self.node_valid(),
            self.spec_header().num_children > 0,
        ensures
            self.child(entry.0) == Some(*entry.1),
            forall|b: u8| b > entry.0 ==> self.child(b) is None,
    {
        match &self.0 {
            ConcreteNodePtr::Node4(n) => n.0.max(),
            ConcreteNodePtr::Node16(n) => n.0.max(),
            ConcreteNodePtr::Node48(n) => n.0.max(),
            ConcreteNodePtr::Node256(n) => n.0.max(),
            ConcreteNodePtr::LeafNode(_) => unreached(),
        }
    }
}

impl<N> NodePtr<N> {
    /// Cast node pointer back to an opaque version, losing type information
    pub fn to_opaque<const PREFIX_LEN: usize>(self) -> (opaque: OpaqueNodePtr<N::Value, PREFIX_LEN>) where
        N: Node<PREFIX_LEN>,

        ensures
            opaque == (*self.0).spec_to_opaque(),
    {
        N::into_opaque(self)
    }
}

/// Move the elements out of `pointers` into slots of their own, from which
/// they can be taken in any order. The slot at each position holds the
/// element that was at that position.
pub fn into_slots<T>(pointers: &mut Vec<T>) -> (slots: Vec<Option<T>>)
    ensures
        final(pointers)@.len() == 0,
        slots@.len() == old(pointers)@.len(),
        forall|i: int| 0 <= i < slots@.len() ==> slots@[i] == Some(old(pointers)@[i]),
{
    let ghost before = pointers@;
    let mut reversed: Vec<T> = Vec::new();
    while pointers.len() > 0
        invariant
            pointers@.len() + reversed@.len() == before.len(),
            forall|i: int| 0 <= i < pointers@.len() ==> pointers@[i] == before[i],
            forall|i: int|
                0 <= i < reversed@.len() ==> reversed@[i] == before[before.len() - 1 - i],
        decreases pointers@.len(),
    {
        match pointers.pop() {
            Some(pointer) => reversed.push(pointer),
            None => {},
        }
    }
    let mut slots: Vec<Option<T>> = Vec::new();
    while reversed.len() > 0
        invariant
            slots@.len() + reversed@.len() == before.len(),
            forall|i: int|
                0 <= i < reversed@.len() ==> reversed@[i] == before[before.len() - 1 - i],
            forall|i: int| 0 <= i < slots@.len() ==> slots@[i] == Some(before[i]),
        decreases reversed@.len(),
    {
        slots.push(reversed.pop());
    }
    slots
}

/// Result of prefix match
#[derive(Debug)]
pub enum MatchPrefixResult<'a, V, const PREFIX_LEN: usize> {
    /// If prefixes don't match
    Mismatch {
        /// Mismatch object
        mismatch: Mismatch<'a, V, PREFIX_LEN>,
    },
    /// If the prefixes match entirely
    Match {
        /// How many bytes were matched
        matched_bytes: usize,
    },
}

/// Represents a prefix mismatch
#[derive(Debug)]
pub struct Mismatch<'a, V, const PREFIX_LEN: usize> {
    /// How many bytes were matched
    pub matched_bytes: usize,
    /// Value of the byte that made it not match
    pub prefix_byte: u8,
    /// The leaf that the prefix was read from, if it was not held inline as
    /// a whole
    pub leaf_ptr: Option<&'a LeafNode<V, PREFIX_LEN>>,
}

impl<V, const PREFIX_LEN: usize> OpaqueNodePtr<V, PREFIX_LEN> {
    /// Read the prefix of the inner node as a whole, from the key of the
    /// first leaf below the node where the inline buffer does not hold all of
    /// it. That leaf is handed out with the prefix.
    ///
    /// `current_depth` is the position in the keys at which the prefix
    /// starts.
    pub fn read_full_prefix<'a>(&'a self, current_depth: usize) -> (prefix: (
        &'a [u8],
        Option<&'a LeafNode<V, PREFIX_LEN>>,
    ))
        requires
            !self.is_leaf(),
            self.well_formed_at(current_depth as int),
        ensures
            prefix.0@ == self.full_prefix(current_depth as int),
            prefix.0@.len() == self.spec_header().prefix_len,
            prefix.1 is Some <==> self.spec_header().prefix_len > PREFIX_LEN,
            prefix.1 matches Some(leaf) ==> self.leaves().len() > 0 && (leaf.key@, leaf.value)
                == self.leaves()[0],
    {
        proof {
            self.lemma_full_prefix_len(self.some_path(current_depth as int));
        }
        let header = match self.header() {
            Some(header) => header,
            None => unreached(),
        };
        let len: usize = header.prefix_len();
        if len <= PREFIX_LEN {
            (header.read_prefix(), None)
        } else {
            let leaf = minimum(self);
            let key = leaf.key_ref().as_slice();
            let key_len: usize = key.len();
            proof {
                let path = self.some_path(current_depth as int);
                assert(self.well_formed(path));
                assert(current_depth + len <= key_len);
            }
            (vstd::slice::slice_subrange(key, current_depth, current_depth + len), Some(leaf))
        }
    }

    /// Compares the compressed path of the inner node with the key and
    /// returns the number of equal bytes.
    ///
    /// The prefix is compared with the key from position `current_depth`
    /// on, which must not lie behind the end of the key. The result is a
    /// match where the whole prefix was found there. Otherwise it tells how
    /// many bytes agreed and which byte of the prefix came next, and it
    /// holds the leaf that the prefix was read from where the inline buffer
    /// does not hold all of the prefix.
    pub fn match_prefix<'a>(&'a self, key: &[u8], current_depth: usize) -> (result:
        MatchPrefixResult<'a, V, PREFIX_LEN>)
        requires
            !self.is_leaf(),
            self.well_formed_at(current_depth as int),
            current_depth <= key@.len(),
        ensures
            ({
                let prefix = self.full_prefix(current_depth as int);
                let matched = common_prefix_len(prefix, key@.skip(current_depth as int));
                match result {
                    MatchPrefixResult::Match { matched_bytes } => {
                        &&& matched_bytes == matched
                        &&& matched == prefix.len()
                    },
                    MatchPrefixResult::Mismatch { mismatch } => {
                        &&& mismatch.matched_bytes == matched
                        &&& matched < prefix.len()
                        &&& mismatch.prefix_byte == prefix[matched as int]
                        &&& mismatch.leaf_ptr is Some <==> self.spec_header().prefix_len
                            > PREFIX_LEN
                        &&& mismatch.leaf_ptr matches Some(leaf) ==> self.leaves().len() > 0 && (
                            leaf.key@,
                            leaf.value,
                        ) == self.leaves()[0]
                    },
                }
            }),
    {
        let (prefix, leaf_ptr) = self.read_full_prefix(current_depth);
        let key = vstd::slice::slice_subrange(key, current_depth, key.len());
        let matched_bytes: usize = common_prefix(prefix, key);
        proof {
            crate::bytes::lemma_common_prefix_len(prefix@, key@);
        }
        if matched_bytes < prefix.len() {
            MatchPrefixResult::Mismatch {
                mismatch: Mismatch { matched_bytes, prefix_byte: prefix[matched_bytes], leaf_ptr },
            }
        } else {
            MatchPrefixResult::Match { matched_bytes }
        }
    }
}

/// All nodes which contain a runtime tag that validates their type.
pub trait Node<const PREFIX_LEN: usize>: private::Sealed + Sized {
    /// The value type carried by the leaf nodes
    type Value;

    /// The runtime type of the node.
    spec fn spec_type() -> NodeType;

    /// The runtime type of the node.
    fn node_type() -> (node_type: NodeType)
        ensures
            node_type == Self::spec_type(),
    ;

    /// The opaque pointer to this node.
    spec fn spec_to_opaque(self) -> OpaqueNodePtr<Self::Value, PREFIX_LEN>;

    /// Forget the type of the node that `pointer` points to.
    fn into_opaque(pointer: NodePtr<Self>) -> (opaque: OpaqueNodePtr<Self::Value, PREFIX_LEN>)
        ensures
            opaque == (*pointer.0).spec_to_opaque(),
    ;

    /// Recover the type of the node that `opaque` points to, if it is this
    /// one. Where it is not, the pointer is handed back.
    fn from_opaque(opaque: OpaqueNodePtr<Self::Value, PREFIX_LEN>) -> (pointer: Result<
        NodePtr<Self>,
        OpaqueNodePtr<Self::Value, PREFIX_LEN>,
    >)
        ensures
            pointer is Ok <==> opaque.spec_node_type() == Self::spec_type(),
            pointer matches Ok(p) ==> (*p.0).spec_to_opaque() == opaque,
            pointer matches Err(p) ==> p == opaque,
    ;
}

/// Common methods implemented by all inner node.
pub trait InnerNode<const PREFIX_LEN: usize>: Node<PREFIX_LEN> {
    /// The header of the node.
    spec fn spec_header(&self) -> Header<PREFIX_LEN>;

    /// The child stored under the given key byte, if there is one.
    spec fn spec_child(&self, key_fragment: u8) -> Option<OpaqueNodePtr<Self::Value, PREFIX_LEN>>;

    /// The invariant of the node's representation.
    spec fn valid(&self) -> bool;

    /// In a valid node the header counts the children.
    proof fn lemma_num_children(&self)
        requires
            self.valid(),
        ensures
            self.spec_header().num_children == count_in(|b: u8| self.spec_child(b) is Some, 0, 256),
    ;

    /// Create an empty [`InnerNode`], with no children and no prefix
    fn empty() -> (node: Self)
        ensures
            node.valid(),
            node.spec_header().num_children == 0,
            node.spec_header().prefix_len == 0,
            forall|b: u8| node.spec_child(b) is None,
    {
        Self::from_header(Header::empty())
    }

    /// Create a new [`InnerNode`] using
    /// `prefix` as the node prefix and
    /// `prefix_len` as the node prefix length.
    ///
    /// The true length of a prefix can be greater than the number of bytes
    /// given, of which no more than fit are kept inline.
    fn from_prefix(prefix: &[u8], prefix_len: usize) -> (node: Self)
        ensures
            node.valid(),
            node.spec_header().num_children == 0,
            node.spec_header().prefix_len == prefix_len,
            forall|i: int|
                0 <= i < PREFIX_LEN ==> node.spec_header().prefix@[i] == (if i < prefix@.len() {
                    prefix@[i]
                } else {
                    0u8
                }),
            forall|b: u8| node.spec_child(b) is None,
    {
        Self::from_header(Header::new(prefix, prefix_len))
    }

    /// Returns true if this node has no more space to store children.
    fn is_full(&self) -> (full: bool)
        ensures
            full == (self.spec_header().num_children >= Self::spec_type().spec_upper_capacity()),
    {
        self.header().num_children() >= Self::node_type().upper_capacity()
    }

    /// Create a new [`InnerNode`] using a `Header`
    fn from_header(header: Header<PREFIX_LEN>) -> (node: Self)
        ensures
            node.spec_header() == header,
            forall|b: u8| node.spec_child(b) is None,
            header.num_children == 0 ==> node.valid(),
    ;

    /// Get the `Header` from the [`InnerNode`]
    fn header(&self) -> (header: &Header<PREFIX_LEN>)
        ensures
            *header == self.spec_header(),
    ;

    /// Search through this node for a child node that corresponds to the given
    /// key fragment.
    fn lookup_child(&self, key_fragment: u8) -> (child: Option<
        &OpaqueNodePtr<Self::Value, PREFIX_LEN>,
    >)
        requires
            self.valid(),
        ensures
            child matches Some(c) ==> self.spec_child(key_fragment) == Some(*c),
            child is None ==> self.spec_child(key_fragment) is None,
    ;

    /// Search through this node for a child node that corresponds to the given
    /// key fragment, to change it in place.
    fn lookup_child_mut(&mut self, key_fragment: u8) -> (child: Option<
        &mut OpaqueNodePtr<Self::Value, PREFIX_LEN>,
    >)
        requires
            old(self).valid(),
        ensures
            child is None ==> old(self).spec_child(key_fragment) is None && *final(self) == *old(
                self,
            ),
            child matches Some(c) ==> {
                &&& old(self).spec_child(key_fragment) == Some(*c)
                &&& final(self).valid()
                &&& final(self).spec_header() == old(self).spec_header()
                &&& final(self).spec_child(key_fragment) == Some(*final(c))
                &&& forall|b: u8|
                    b != key_fragment ==> final(self).spec_child(b) == old(self).spec_child(b)
            },
    ;

    /// Write a child pointer with key fragment to this inner node.
    ///
    /// If the key fragment already exists in the node, overwrite the existing
    /// child pointer.
    fn write_child(
        &mut self,
        key_fragment: u8,
        child_pointer: OpaqueNodePtr<Self::Value, PREFIX_LEN>,
    )
        requires
            old(self).valid(),
            old(self).spec_child(key_fragment) is Some || old(self).spec_header().num_children
                < Self::spec_type().spec_upper_capacity(),
        ensures
            final(self).valid(),
            final(self).spec_child(key_fragment) == Some(child_pointer),
            forall|b: u8|
                b != key_fragment ==> final(self).spec_child(b) == old(self).spec_child(b),
            final(self).spec_header().prefix_len == old(self).spec_header().prefix_len,
            final(self).spec_header().prefix == old(self).spec_header().prefix,
            final(self).spec_header().num_children == old(self).spec_header().num_children + (
            if old(self).spec_child(key_fragment) is Some {
                0int
            } else {
                1int
            }),
    ;

    /// Attempt to remove a child pointer at the key fragment from this inner
    /// node.
    ///
    /// If the key fragment does not exist in this node, return `None`.
    fn remove_child(&mut self, key_fragment: u8) -> (child: Option<
        OpaqueNodePtr<Self::Value, PREFIX_LEN>,
    >)
        requires
            old(self).valid(),
        ensures
            child == old(self).spec_child(key_fragment),
            final(self).valid(),
            final(self).spec_child(key_fragment) is None,
            forall|b: u8|
                b != key_fragment ==> final(self).spec_child(b) == old(self).spec_child(b),
            final(self).spec_header().prefix_len == old(self).spec_header().prefix_len,
            final(self).spec_header().prefix == old(self).spec_header().prefix,
            final(self).spec_header().num_children == old(self).spec_header().num_children - (
            if child is Some {
                1int
            } else {
                0int
            }),
    ;

    /// Returns the minimum child pointer from this node and it's key
    ///
    /// The node must have a child.
    fn min(&self) -> (entry: (u8, &OpaqueNodePtr<Self::Value, PREFIX_LEN>))
        requires
            self.valid(),
            self.spec_header().num_children > 0,
        ensures
            self.spec_child(entry.0) == Some(*entry.1),
            forall|b: u8| b < entry.0 ==> self.spec_child(b) is None,
    ;

    /// Returns the maximum child pointer from this node and it's key
    ///
    /// The node must have a child.
    fn max(&self) -> (entry: (u8, &OpaqueNodePtr<Self::Value, PREFIX_LEN>))
        requires
            self.valid(),
            self.spec_header().num_children > 0,
        ensures
            self.spec_child(entry.0) == Some(*entry.1),
            forall|b: u8| b > entry.0 ==> self.spec_child(b) is None,
    ;
}

} // verus!
