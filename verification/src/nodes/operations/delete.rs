//! Deletion.

use crate::bytes::lemma_common_prefix_len;
use crate::nodes::counting::lemma_count_one;
use crate::nodes::operations::insert::{tree_consistent, tree_map};
use crate::nodes::operations::lookup::{lemma_matches_prefix, lemma_prefix_matches};
use crate::nodes::theorems::{lemma_same_map_same_tree_shape, tree_same_shape};
use crate::nodes::representation::{
    ConcreteNodePtr, MatchPrefixResult, NodePtr, NodeType, OpaqueNodePtr,
};
use vstd::prelude::*;

verus! {

/// The relation between the map before a deletion of `key`, the map after
/// it and what the deletion returns: the map holds nothing under `key`
/// afterwards and is unchanged elsewhere, and the value that was stored
/// under `key` is handed out, if there was one.
pub open spec fn removed<V>(
    before: Map<Seq<u8>, V>,
    key: Seq<u8>,
    after: Map<Seq<u8>, V>,
    result: Option<V>,
) -> bool {
    &&& after == before.remove(key)
    &&& result == (if before.contains_key(key) {
        Some(before[key])
    } else {
        None
    })
}

/// Replace an inner node that has no more children than the next smaller
/// type holds by a node of that type, which takes over the header and the
/// children.
pub fn shrink_node<V, const PREFIX_LEN: usize>(node: &mut OpaqueNodePtr<V, PREFIX_LEN>)
    requires
        !old(node).is_leaf(),
        old(node).node_valid(),
        old(node).spec_node_type().spec_should_shrink(
            old(node).spec_header().num_children as usize,
        ),
    ensures
        !final(node).is_leaf(),
        final(node).node_valid(),
        final(node).spec_node_type() == old(node).spec_node_type().shrunk(),
        final(node).spec_header() == old(node).spec_header(),
        forall|b: u8| final(node).child(b) == old(node).child(b),
{
    let shrunk: Option<OpaqueNodePtr<V, PREFIX_LEN>> = match &mut node.0 {
        ConcreteNodePtr::Node16(pointer) => Some(
            NodePtr::allocate_node_ptr(pointer.0.shrink()).to_opaque(),
        ),
        ConcreteNodePtr::Node48(pointer) => Some(
            NodePtr::allocate_node_ptr(pointer.0.shrink()).to_opaque(),
        ),
        ConcreteNodePtr::Node256(pointer) => Some(
            NodePtr::allocate_node_ptr(pointer.0.shrink()).to_opaque(),
        ),
        _ => None,
    };
    match shrunk {
        Some(shrunk) => {
            *node = shrunk;
        },
        None => {},
    }
}

/// Replace an inner node that has a single child by that child.
///
/// Where the child is an inner node, the prefix of the node and the key byte
/// of the child are put in front of the prefix of the child. A leaf carries
/// its whole key and takes the place of the node as it is. `depth` is the
/// position in the keys at which the prefix of the node starts.
pub fn collapse<V, const PREFIX_LEN: usize>(node: &mut OpaqueNodePtr<V, PREFIX_LEN>, depth: usize)
    requires
        !old(node).is_leaf(),
        old(node).spec_header().num_children == 1,
        exists|path: Seq<u8>|
            path.len() == depth && #[trigger] old(node).well_formed(path) && forall|b: u8|
                #![trigger old(node).child(b)]
                old(node).child(b) matches Some(c) ==> c.fits(),
    ensures
        final(node).leaves() == old(node).leaves(),
        forall|path: Seq<u8>|
            path.len() == depth && #[trigger] old(node).well_formed(path)
                ==> final(node).consistent(path),
{
    let ghost before = *node;
    let ghost path = choose|path: Seq<u8>|
        path.len() == depth && #[trigger] before.well_formed(path) && forall|b: u8|
            #![trigger before.child(b)]
            before.child(b) matches Some(c) ==> c.fits();
    let ghost full = before.full_prefix(depth as int);
    proof {
        before.lemma_full_prefix_len(path);
        assert(before.well_formed_at(depth as int));
    }
    let (key_fragment, _) = node.min_child();
    let (prefix, _) = node.read_full_prefix(depth);
    let mut bytes = vstd::slice::slice_to_vec(prefix);
    bytes.push(key_fragment);
    let ghost only = before.child(key_fragment).unwrap();
    let ghost below = (path + full).push(key_fragment);
    proof {
        before.lemma_children_counted();
        lemma_count_one(|b: u8| before.child(b) is Some, key_fragment);
        assert forall|b: u8| b != key_fragment implies before.child(b) is None by {
            let occupied = |b: u8| before.child(b) is Some;
            assert(!occupied(b));
        }
        before.lemma_between_at(0, key_fragment, 256);
        before.lemma_between_empty(0, key_fragment as int);
        before.lemma_between_empty(key_fragment + 1, 256);
        assert(before.leaves() =~= only.leaves());
        only.lemma_has_leaf(below);
        only.lemma_leaf_keys_bounded();
        only.lemma_leaves_extend_path(below);
        if !only.is_leaf() {
            only.lemma_full_prefix_len(below);
            only.lemma_inline_prefix(below);
            only.lemma_well_formed_inner(below);
            only.lemma_fits_inner();
            only.lemma_lookup(below, only.leaves()[0].0);
            only.lemma_leaves_sorted(below);
            crate::nodes::model::lemma_sorted_index(only.leaves(), 0);
        }
    }
    match node.remove_child(key_fragment) {
        Some(child) => {
            let mut child = child;
            match child.header_mut() {
                Some(header) => {
                    header.prepend(bytes.as_slice());
                },
                None => {},
            }
            proof {
                if !only.is_leaf() {
                    let rest = only.full_prefix(below.len() as int);
                    let whole = bytes@ + rest;
                    assert(bytes@ =~= full.push(key_fragment));
                    assert(path + whole =~= below + rest);
                    assert(only.spec_header().inline_prefix() =~= rest.subrange(
                        0,
                        only.spec_header().inline_len(),
                    ));
                    assert(child.spec_header().inline_prefix() =~= whole.subrange(
                        0,
                        child.spec_header().inline_len(),
                    ));
                    assert forall|b: u8| #![trigger child.child(b)] child.child(b) is Some implies child.child(
                        b,
                    ).unwrap().populated() && child.child(b).unwrap().well_formed(
                        (path + whole).push(b),
                    ) && child.child(b).unwrap().fits() by {
                        assert(child.child(b) == only.child(b));
                    }
                    child.lemma_well_formed_from_children(path, whole);
                    only.lemma_same_children(child);
                } else {
                    assert(child == only);
                    assert(below.subrange(0, path.len() as int) =~= path);
                    crate::nodes::operations::insert::lemma_prefix_transitive(
                        path,
                        below,
                        only.leaf().key@,
                    );
                }
            }
            *node = child;
        },
        None => {},
    }
    proof {
        let after = *node;
        assert forall|other: Seq<u8>|
            other.len() == depth && #[trigger] before.well_formed(other) implies after.consistent(
            other,
        ) by {
            before.lemma_has_leaf(other);
            before.lemma_has_leaf(path);
            before.lemma_leaves_extend_path(other);
            before.lemma_leaves_extend_path(path);
            let first = before.leaves()[0].0;
            assert(first.subrange(0, depth as int) == other);
            assert(first.subrange(0, depth as int) == path);
        }
    }
}

/// Remove the key from the subtree below the inner node `node`, which the
/// path of the first `depth` bytes of the key leads to, and hand out the
/// value that was stored with it.
///
/// The descent is that of a lookup. Where it reaches a leaf with the key,
/// the leaf is removed from its parent. A parent of the smallest type that
/// is left with one child is replaced by that child; a parent of another
/// type that is left with no more children than the next smaller type holds
/// is replaced by a node of that type.
pub fn remove_from<V, const PREFIX_LEN: usize>(
    node: &mut OpaqueNodePtr<V, PREFIX_LEN>,
    key: &[u8],
    depth: usize,
) -> (result: Option<V>)
    requires
        !old(node).is_leaf(),
        depth <= key@.len(),
        old(node).consistent(key@.subrange(0, depth as int)),
    ensures
        final(node).consistent(key@.subrange(0, depth as int)),
        removed(old(node)@, key@, final(node)@, result),
    decreases key@.len() - depth,
{
    let ghost before = *node;
    let ghost path = key@.subrange(0, depth as int);
    let ghost full = before.full_prefix(depth as int);
    let key_len: usize = key.len();
    proof {
        before.lemma_full_prefix_len(path);
        before.lemma_well_formed_inner(path);
        before.lemma_fits_inner();
        before.lemma_inline_prefix(path);
        before.lemma_lookup(path, key@);
        assert(before.well_formed_at(depth as int));
        lemma_common_prefix_len(full, key@.skip(depth as int));
    }
    let matched: Option<usize> = match node.match_prefix(key, depth) {
        MatchPrefixResult::Match { matched_bytes } => Some(matched_bytes),
        MatchPrefixResult::Mismatch { .. } => None,
    };
    let next_depth: usize = match matched {
        Some(matched_bytes) => depth + matched_bytes,
        None => {
            proof {
                if before@.contains_key(key@) {
                    lemma_prefix_matches(path, full, key@);
                }
                assert(before@.remove(key@) =~= before@);
            }
            return None;
        },
    };
    if next_depth >= key_len {
        proof {
            assert(before@.remove(key@) =~= before@);
        }
        return None;
    }
    let key_fragment: u8 = key[next_depth];
    proof {
        lemma_matches_prefix(path, full, key@);
        assert(key@.subrange(0, next_depth + 1) =~= (path + full).push(key_fragment)) by {
            assert(key@.subrange(0, next_depth as int) =~= path + full);
        }
    }
    let kind: u8 = match node.lookup_child(key_fragment) {
        None => 0,
        Some(child) => {
            match &child.0 {
                ConcreteNodePtr::LeafNode(leaf) => {
                    proof {
                        child.lemma_leaf_map();
                    }
                    if leaf.0.matches_full_key(key) {
                        1
                    } else {
                        2
                    }
                },
                _ => 3,
            }
        },
    };
    if kind == 0 || kind == 2 {
        proof {
            assert(before@.remove(key@) =~= before@);
        }
        return None;
    }
    if kind == 3 {
        return match node.lookup_child_mut(key_fragment) {
            Some(child) => {
                let result = remove_from(child, key, next_depth + 1);
                proof {
                    let after = *node;
                    assert forall|b: u8| #![trigger after.child(b)] after.child(b) is Some implies after.child(
                        b,
                    ).unwrap().populated() && after.child(b).unwrap().well_formed(
                        (path + full).push(b),
                    ) && after.child(b).unwrap().fits() by {
                        if b != key_fragment {
                            assert(after.child(b) == before.child(b));
                        } else {
                            let changed = after.child(b).unwrap();
                            if !changed.is_leaf() {
                                changed.lemma_fits_inner();
                            }
                        }
                    }
                    after.lemma_well_formed_from_children(path, full);
                    let target = before@.remove(key@);
                    assert forall|k: Seq<u8>|
                        #![trigger after@.dom().contains(k)]
                        #![trigger target.dom().contains(k)]
                        after@.dom().contains(k) == target.dom().contains(k) && (
                        after@.dom().contains(k) ==> after@[k] == target[k]) by {
                        after.lemma_lookup(path, k);
                        before.lemma_lookup(path, k);
                    }
                    assert(after@ =~= target);
                }
                result
            },
            None => None,
        };
    }
    let ghost leaf = before.child(key_fragment).unwrap();
    let value: Option<V> = match node.remove_child(key_fragment) {
        Some(leaf) => Some(leaf.into_leaf_entry().1),
        None => None,
    };
    let ghost pruned = *node;
    proof {
        leaf.lemma_leaf_map();
        assert forall|b: u8| #![trigger pruned.child(b)] pruned.child(b) is Some implies pruned.child(
            b,
        ).unwrap().populated() && pruned.child(b).unwrap().well_formed((path + full).push(b))
            && pruned.child(b).unwrap().fits() by {
            assert(pruned.child(b) == before.child(b));
        }
        assert(pruned.spec_header().inline_prefix() =~= full.subrange(
            0,
            pruned.spec_header().inline_len(),
        ));
        pruned.lemma_well_formed_from_children(path, full);
        let target = before@.remove(key@);
        assert forall|k: Seq<u8>|
            #![trigger pruned@.dom().contains(k)]
            #![trigger target.dom().contains(k)]
            pruned@.dom().contains(k) == target.dom().contains(k) && (pruned@.dom().contains(k)
                ==> pruned@[k] == target[k]) by {
            pruned.lemma_lookup(path, k);
            before.lemma_lookup(path, k);
        }
        assert(pruned@ =~= target);
    }
    let node_type = node.node_type();
    let num_children: usize = match node.header() {
        Some(header) => header.num_children(),
        None => 0,
    };
    if node_type == NodeType::Node4 && num_children == 1 {
        collapse(node, depth);
    } else if node_type != NodeType::Leaf && node_type.should_shrink_inner_node(num_children) {
        shrink_node(node);
        proof {
            let after = *node;
            assert forall|b: u8| #![trigger after.child(b)] after.child(b) is Some implies after.child(
                b,
            ).unwrap().populated() && after.child(b).unwrap().well_formed((path + full).push(b))
                && after.child(b).unwrap().fits() by {
                assert(after.child(b) == pruned.child(b));
            }
            after.lemma_well_formed_from_children(path, full);
            pruned.lemma_same_children(after);
        }
    }
    value
}

/// Remove the key from the tree with the given root and hand out the value
/// that was stored with it, if there was one.
///
/// A tree that holds the key alone is left without a root.
pub fn remove<V, const PREFIX_LEN: usize>(
    root: &mut Option<OpaqueNodePtr<V, PREFIX_LEN>>,
    key: &[u8],
) -> (result: Option<V>)
    requires
        tree_consistent(*old(root)),
    ensures
        tree_consistent(*final(root)),
        removed(tree_map(*old(root)), key@, tree_map(*final(root)), result),
        result is None ==> tree_same_shape(*final(root), *old(root)),
{
    let ghost before = tree_map(*root);
    assert(key@.subrange(0, 0) =~= Seq::empty());
    let kind: u8 = match root.as_ref() {
        None => 0,
        Some(node) => {
            match &node.0 {
                ConcreteNodePtr::LeafNode(leaf) => {
                    proof {
                        node.lemma_leaf_map();
                    }
                    if leaf.0.matches_full_key(key) {
                        1
                    } else {
                        2
                    }
                },
                _ => 3,
            }
        },
    };
    if kind == 3 {
        let result = match root.as_mut() {
            Some(node) => remove_from(node, key, 0),
            None => None,
        };
        proof {
            if result is None {
                assert(before.remove(key@) =~= before);
                lemma_same_map_same_tree_shape(*root, *old(root));
            }
        }
        result
    } else if kind == 1 {
        let result = match root.take() {
            Some(node) => Some(node.into_leaf_entry().1),
            None => None,
        };
        assert(tree_map(*root) =~= before.remove(key@));
        result
    } else {
        proof {
            assert(before.remove(key@) =~= before);
            lemma_same_map_same_tree_shape(*root, *old(root));
        }
        None
    }
}

} // verus!
