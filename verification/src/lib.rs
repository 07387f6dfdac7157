//! Adaptive radix trie implementation
//!
//! The trie maps keys that are byte strings to values. Its inner nodes come
//! in four types, which hold up to 4, 16, 48 and 256 children and replace
//! each other as children come and go, and each inner node carries a
//! compressed prefix: the bytes that all keys below it share behind the
//! path to the node.
//!
//! The operations on a tree are lookup ([`search`]), insertion ([`insert`]),
//! deletion ([`remove`]) and iteration over the leaves in the order of their
//! keys ([`TreeIterator`]). Their contracts speak of the map that a tree
//! denotes and of the sequence of its leaves.
//!
//! # References
//!
//!  - Leis, V., Kemper, A., & Neumann, T. (2013, April). The adaptive radix
//!    tree: ARTful indexing for main-memory databases. In 2013 IEEE 29th
//!    International Conference on Data Engineering (ICDE) (pp. 38-49). IEEE.

pub mod bytes;
pub mod nodes;
pub mod tests_common;

pub use nodes::header::Header;
pub use nodes::operations::delete::remove;
pub use nodes::operations::insert::{insert, InsertResult};
pub use nodes::operations::iterator::{InnerNodeIter, InnerNodeTreeIterator, TreeIterator};
pub use nodes::operations::lookup::{search, search_leaf};
pub use nodes::operations::minmax::{maximum, minimum};
pub use nodes::representation::inner_node_256::{InnerNode256, InnerNode256Iter};
pub use nodes::representation::inner_node_48::{
    InnerNode48, Node48Iter, RestrictedNodeIndex, TryFromByteError,
};
pub use nodes::representation::inner_node_compressed::{
    InnerNode16, InnerNode4, InnerNodeCompressed, InnerNodeCompressedIter,
};
pub use nodes::representation::{
    ConcreteNodePtr, InnerNode, LeafNode, MatchPrefixResult, Mismatch, Node, NodePtr, NodeType,
    OpaqueNodePtr,
};
