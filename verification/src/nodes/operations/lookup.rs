//! Point lookup.

use crate::bytes::{common_prefix_len, is_prefix_of, lemma_common_prefix_len};
use crate::nodes::representation::{ConcreteNodePtr, LeafNode, MatchPrefixResult, OpaqueNodePtr};
use vstd::prelude::*;

verus! {

/// A key that starts with `head + prefix` agrees with `prefix` in all of its
/// bytes from the end of `head` on.
pub proof fn lemma_prefix_matches(head: Seq<u8>, prefix: Seq<u8>, key: Seq<u8>)
    requires
        is_prefix_of(head + prefix, key),
    ensures
        common_prefix_len(prefix, key.skip(head.len() as int)) == prefix.len(),
{
    let rest = key.skip(head.len() as int);
    lemma_common_prefix_len(prefix, rest);
    let n = common_prefix_len(prefix, rest) as int;
    if n < prefix.len() {
        assert(rest[n] == key.subrange(0, (head + prefix).len() as int)[head.len() + n]);
        assert((head + prefix)[head.len() + n] == prefix[n]);
    }
}

/// A key that starts with `head` and goes on with all of `prefix` starts
/// with `head + prefix`.
pub proof fn lemma_matches_prefix(head: Seq<u8>, prefix: Seq<u8>, key: Seq<u8>)
    requires
        is_prefix_of(head, key),
        common_prefix_len(prefix, key.skip(head.len() as int)) == prefix.len(),
    ensures
        is_prefix_of(head + prefix, key),
{
    let rest = key.skip(head.len() as int);
    lemma_common_prefix_len(prefix, rest);
    assert(key.subrange(0, (head + prefix).len() as int) =~= head + prefix) by {
        assert forall|i: int| 0 <= i < (head + prefix).len() implies key[i] == (head + prefix)[i] by {
            if i < head.len() {
                assert(key.subrange(0, head.len() as int)[i] == head[i]);
            } else {
                assert(rest[i - head.len()] == prefix[i - head.len()]);
            }
        }
    }
}

/// Search in the given tree for the value stored with the given key.
pub fn search<'a, V, const PREFIX_LEN: usize>(
    root: &'a OpaqueNodePtr<V, PREFIX_LEN>,
    key: &[u8],
) -> (value: Option<&'a V>)
    requires
        root.well_formed(Seq::empty()),
    ensures
        value matches Some(v) ==> root@.contains_key(key@) && root@[key@] == *v,
        value is None ==> !root@.contains_key(key@),
{
    match search_leaf(root, key) {
        Some(leaf) => Some(leaf.value_ref()),
        None => None,
    }
}

/// Search in the given tree for the leaf with the given key.
///
/// The descent starts at the root. At a leaf the stored key is compared with
/// the whole query. At an inner node the prefix must be found in the query
/// at the current depth; the byte of the query behind it selects the child
/// to go on with. A query that ends before that byte is not found.
pub fn search_leaf<'a, V, const PREFIX_LEN: usize>(
    root: &'a OpaqueNodePtr<V, PREFIX_LEN>,
    key: &[u8],
) -> (leaf: Option<&'a LeafNode<V, PREFIX_LEN>>)
    requires
        root.well_formed(Seq::empty()),
    ensures
        leaf matches Some(l) ==> l.key@ == key@ && root@.contains_key(key@) && root@[key@]
            == l.value,
        leaf is None ==> !root@.contains_key(key@),
{
    let mut current_node: &'a OpaqueNodePtr<V, PREFIX_LEN> = root;
    let mut current_depth: usize = 0;
    let key_len: usize = key.len();
    assert(key@.subrange(0, 0) =~= Seq::empty());
    loop
        invariant
            key_len == key@.len(),
            current_depth <= key@.len(),
            current_node.well_formed(key@.subrange(0, current_depth as int)),
            root@.contains_key(key@) == current_node@.contains_key(key@),
            current_node@.contains_key(key@) ==> root@[key@] == current_node@[key@],
        decreases key@.len() - current_depth,
    {
        let ghost path = key@.subrange(0, current_depth as int);
        match &current_node.0 {
            ConcreteNodePtr::LeafNode(leaf) => {
                proof {
                    current_node.lemma_leaf_map();
                }
                if leaf.0.matches_full_key(key) {
                    return Some(leaf.as_ref());
                } else {
                    return None;
                }
            },
            _ => {
                proof {
                    current_node.lemma_lookup(path, key@);
                    current_node.lemma_full_prefix_len(path);
                }
                match current_node.match_prefix(key, current_depth) {
                    MatchPrefixResult::Mismatch { .. } => {
                        proof {
                            if current_node@.contains_key(key@) {
                                lemma_prefix_matches(
                                    path,
                                    current_node.full_prefix(current_depth as int),
                                    key@,
                                );
                            }
                        }
                        return None;
                    },
                    MatchPrefixResult::Match { matched_bytes } => {
                        proof {
                            lemma_common_prefix_len(
                                current_node.full_prefix(current_depth as int),
                                key@.skip(current_depth as int),
                            );
                        }
                        let next_depth: usize = current_depth + matched_bytes;
                        if next_depth >= key_len {
                            return None;
                        }
                        let next_key_fragment: u8 = key[next_depth];
                        match current_node.lookup_child(next_key_fragment) {
                            None => {
                                return None;
                            },
                            Some(child) => {
                                proof {
                                    let prefix = current_node.full_prefix(current_depth as int);
                                    lemma_matches_prefix(path, prefix, key@);
                                    assert(key@.subrange(0, next_depth + 1) =~= (path
                                        + prefix).push(next_key_fragment)) by {
                                        assert(key@.subrange(0, next_depth as int) =~= path
                                            + prefix);
                                    }
                                }
                                current_node = child;
                                current_depth = next_depth + 1;
                            },
                        }
                    },
                }
            },
        }
    }
}

} // verus!
