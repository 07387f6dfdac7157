//! The first and the last leaf of a tree.

use crate::nodes::representation::{ConcreteNodePtr, LeafNode, OpaqueNodePtr};
use vstd::prelude::*;

verus! {

impl<V, const PREFIX_LEN: usize> OpaqueNodePtr<V, PREFIX_LEN> {
    /// The subtree below this node is well-formed at the end of some path of
    /// the given length.
    pub open spec fn well_formed_at(self, depth: int) -> bool {
        exists|path: Seq<u8>| path.len() == depth && #[trigger] self.well_formed(path)
    }

    /// A path of the given length at the end of which the subtree is
    /// well-formed, if there is one.
    pub open spec fn some_path(self, depth: int) -> Seq<u8> {
        choose|path: Seq<u8>| path.len() == depth && #[trigger] self.well_formed(path)
    }
}

/// Search for the leaf with the minimum key, by always taking the child
/// under the lowest key byte.
///
/// The tree must be well-formed and hold a leaf.
pub fn minimum<'a, V, const PREFIX_LEN: usize>(root: &'a OpaqueNodePtr<V, PREFIX_LEN>) -> (leaf:
    &'a LeafNode<V, PREFIX_LEN>)
    requires
        exists|depth: int| root.well_formed_at(depth),
        root.populated(),
    ensures
        root.leaves().len() > 0,
        (leaf.key@, leaf.value) == root.leaves()[0],
    decreases root,
{
    let ghost depth = choose|depth: int| root.well_formed_at(depth);
    let ghost path = root.some_path(depth);
    match &root.0 {
        ConcreteNodePtr::LeafNode(leaf) => &leaf.0,
        _ => {
            let (key_fragment, child) = root.min_child();
            proof {
                let below = (path + root.full_prefix(depth)).push(key_fragment);
                assert(child.well_formed(below));
                assert(child.well_formed_at(below.len() as int));
                child.lemma_has_leaf(below);
                root.lemma_between_at(0, key_fragment, 256);
                root.lemma_between_empty(0, key_fragment as int);
            }
            minimum(child)
        },
    }
}

/// Search for the leaf with the maximum key, by always taking the child
/// under the highest key byte.
///
/// The tree must be well-formed and hold a leaf.
pub fn maximum<'a, V, const PREFIX_LEN: usize>(root: &'a OpaqueNodePtr<V, PREFIX_LEN>) -> (leaf:
    &'a LeafNode<V, PREFIX_LEN>)
    requires
        exists|depth: int| root.well_formed_at(depth),
        root.populated(),
    ensures
        root.leaves().len() > 0,
        (leaf.key@, leaf.value) == root.leaves().last(),
    decreases root,
{
    let ghost depth = choose|depth: int| root.well_formed_at(depth);
    let ghost path = root.some_path(depth);
    match &root.0 {
        ConcreteNodePtr::LeafNode(leaf) => &leaf.0,
        _ => {
            let (key_fragment, child) = root.max_child();
            proof {
                let below = (path + root.full_prefix(depth)).push(key_fragment);
                assert(child.well_formed(below));
                assert(child.well_formed_at(below.len() as int));
                child.lemma_has_leaf(below);
                root.lemma_between_at(0, key_fragment, 256);
                root.lemma_between_empty(key_fragment + 1, 256);
            }
            maximum(child)
        },
    }
}

} // verus!
