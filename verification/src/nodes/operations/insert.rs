//! Insertion.

use crate::bytes::{bytes_eq, common_prefix, is_prefix_of, lemma_common_prefix_len};
use crate::nodes::counting::lemma_count_not_full;
use crate::nodes::operations::lookup::lemma_matches_prefix;
use crate::nodes::theorems::{lemma_same_map_same_tree_shape, tree_same_shape};
use crate::nodes::representation::inner_node_compressed::InnerNode4;
use crate::nodes::representation::{
    ConcreteNodePtr, InnerNode, LeafNode, MatchPrefixResult, Node, NodePtr, NodeType,
    OpaqueNodePtr,
};
use vstd::prelude::*;

verus! {

/// What an insertion did.
#[derive(Debug)]
pub enum InsertResult<V> {
    /// The key was stored before; its value was replaced and is handed out.
    Replaced(V),
    /// The key was not stored before; a leaf was added.
    Inserted,
    /// The key is a prefix of a stored key, or a stored key is a prefix of
    /// it; the tree was left as it was.
    PrefixConflict,
}

/// `other` is a stored key that is not `key` and of which `key` is a prefix,
/// or which is a prefix of `key`.
pub open spec fn conflicts<V>(map: Map<Seq<u8>, V>, key: Seq<u8>, other: Seq<u8>) -> bool {
    &&& map.contains_key(other)
    &&& other != key
    &&& is_prefix_of(other, key) || is_prefix_of(key, other)
}

/// A stored key and `key` are distinct and one is a prefix of the other.
pub open spec fn prefix_conflict<V>(map: Map<Seq<u8>, V>, key: Seq<u8>) -> bool {
    exists|other: Seq<u8>| #[trigger] conflicts(map, key, other)
}

/// The relation between the map before an insertion of `value` under `key`,
/// the map after it and what the insertion returns.
///
/// On a prefix conflict the map stays as it was. Otherwise the map holds
/// `value` under `key` afterwards and is unchanged elsewhere, and the value
/// that was stored under `key` before is handed out, if there was one.
pub open spec fn inserted<V>(
    before: Map<Seq<u8>, V>,
    key: Seq<u8>,
    value: V,
    after: Map<Seq<u8>, V>,
    result: InsertResult<V>,
) -> bool {
    if prefix_conflict(before, key) {
        result is PrefixConflict && after == before
    } else {
        &&& after == before.insert(key, value)
        &&& result == (if before.contains_key(key) {
            InsertResult::Replaced(before[key])
        } else {
            InsertResult::Inserted
        })
    }
}

/// No key is in conflict with the keys of an empty map.
pub proof fn lemma_no_conflict_in_empty_map<V>(key: Seq<u8>)
    ensures
        !prefix_conflict(Map::<Seq<u8>, V>::empty(), key),
{
    let map = Map::<Seq<u8>, V>::empty();
    if prefix_conflict(map, key) {
        let other = choose|other: Seq<u8>| #[trigger] conflicts(map, key, other);
        assert(map.contains_key(other));
    }
}

/// A prefix of a prefix is a prefix.
pub proof fn lemma_prefix_transitive(a: Seq<u8>, b: Seq<u8>, c: Seq<u8>)
    requires
        is_prefix_of(a, b),
        is_prefix_of(b, c),
    ensures
        is_prefix_of(a, c),
{
    assert(c.subrange(0, a.len() as int) =~= c.subrange(0, b.len() as int).subrange(
        0,
        a.len() as int,
    ));
}

/// Two strings that differ at a position that both have are no prefixes of
/// each other.
pub proof fn lemma_differ_no_prefix(a: Seq<u8>, b: Seq<u8>, i: int)
    requires
        0 <= i < a.len(),
        i < b.len(),
        a[i] != b[i],
    ensures
        !is_prefix_of(a, b),
        !is_prefix_of(b, a),
        a != b,
{
    if is_prefix_of(a, b) {
        assert(b.subrange(0, a.len() as int)[i] == a[i]);
    }
    if is_prefix_of(b, a) {
        assert(a.subrange(0, b.len() as int)[i] == b[i]);
    }
}

impl<V, const PREFIX_LEN: usize> OpaqueNodePtr<V, PREFIX_LEN> {
    /// A key that goes on behind the path and the prefix of a well-formed
    /// inner node is in conflict with the keys below the node where it is
    /// in conflict with the keys below the child that its next byte
    /// selects, and nowhere else.
    pub proof fn lemma_conflict_child(self, path: Seq<u8>, key: Seq<u8>)
        requires
            !self.is_leaf(),
            self.well_formed(path),
            is_prefix_of(path + self.full_prefix(path.len() as int), key),
            key.len() > path.len() + self.spec_header().prefix_len,
        ensures
            prefix_conflict(self@, key) == (self.child(
                key[path.len() + self.spec_header().prefix_len],
            ) matches Some(c) && prefix_conflict(c@, key)),
    {
        self.lemma_full_prefix_len(path);
        let depth = path.len() + self.spec_header().prefix_len;
        let b = key[depth];
        if prefix_conflict(self@, key) {
            let other = choose|other: Seq<u8>| #[trigger] conflicts(self@, key, other);
            self.lemma_lookup(path, other);
            if other[depth] != b {
                lemma_differ_no_prefix(other, key, depth);
            }
            let c = self.child(b).unwrap();
            assert(conflicts(c@, key, other));
        }
        if self.child(b) matches Some(c) && prefix_conflict(c@, key) {
            let c = self.child(b).unwrap();
            let other = choose|other: Seq<u8>| #[trigger] conflicts(c@, key, other);
            c.lemma_leaves_sorted((path + self.full_prefix(path.len() as int)).push(b));
            let j = crate::nodes::model::entries_index(c.leaves(), other);
            c.lemma_leaves_extend_path((path + self.full_prefix(path.len() as int)).push(b));
            let longer = (path + self.full_prefix(path.len() as int)).push(b);
            assert(is_prefix_of(longer, c.leaves()[j].0));
            assert(other[depth] == other.subrange(0, longer.len() as int)[depth]);
            self.lemma_lookup(path, other);
            assert(conflicts(self@, key, other));
        }
    }

    /// A key that ends within the path and the prefix of a populated
    /// well-formed inner node is a prefix of the keys below the node.
    pub proof fn lemma_conflict_short(self, path: Seq<u8>, key: Seq<u8>)
        requires
            !self.is_leaf(),
            self.well_formed(path),
            self.populated(),
            is_prefix_of(key, path + self.full_prefix(path.len() as int)),
        ensures
            prefix_conflict(self@, key),
            !self@.contains_key(key),
    {
        self.lemma_full_prefix_len(path);
        self.lemma_has_leaf(path);
        self.lemma_leaves_sorted(path);
        crate::nodes::model::lemma_sorted_index(self.leaves(), 0);
        let other = self.leaves()[0].0;
        self.lemma_lookup(path, other);
        self.lemma_lookup(path, key);
        lemma_prefix_transitive(key, path + self.full_prefix(path.len() as int), other);
        assert(conflicts(self@, key, other));
    }

    /// A key that differs from the path and the prefix of a well-formed
    /// inner node at some position is not below the node and not in conflict
    /// with the keys there.
    pub proof fn lemma_no_conflict_mismatch(self, path: Seq<u8>, key: Seq<u8>, i: int)
        requires
            !self.is_leaf(),
            self.well_formed(path),
            0 <= i < key.len(),
            i < path.len() + self.spec_header().prefix_len,
            key[i] != (path + self.full_prefix(path.len() as int))[i],
        ensures
            !prefix_conflict(self@, key),
            !self@.contains_key(key),
    {
        self.lemma_full_prefix_len(path);
        let whole = path + self.full_prefix(path.len() as int);
        assert forall|other: Seq<u8>| self@.contains_key(other) implies !is_prefix_of(other, key)
            && !is_prefix_of(key, other) && other != key by {
            self.lemma_lookup(path, other);
            assert(other.subrange(0, whole.len() as int)[i] == whole[i]);
            lemma_differ_no_prefix(other, key, i);
        }
        if prefix_conflict(self@, key) {
            let other = choose|other: Seq<u8>| #[trigger] conflicts(self@, key, other);
            assert(self@.contains_key(other));
        }
        if self@.contains_key(key) {
            self.lemma_lookup(path, key);
            assert(key.subrange(0, whole.len() as int)[i] == whole[i]);
        }
    }

    /// The map of a leaf is in conflict with a key where the key of the leaf
    /// is another key and one of the two is a prefix of the other.
    pub proof fn lemma_conflict_leaf(self, key: Seq<u8>)
        requires
            self.is_leaf(),
        ensures
            prefix_conflict(self@, key) == (self.leaf().key@ != key && (is_prefix_of(
                self.leaf().key@,
                key,
            ) || is_prefix_of(key, self.leaf().key@))),
    {
        self.lemma_leaf_map();
        let stored = self.leaf().key@;
        if prefix_conflict(self@, key) {
            let other = choose|other: Seq<u8>| #[trigger] conflicts(self@, key, other);
            assert(other == stored);
        }
        if stored != key && (is_prefix_of(stored, key) || is_prefix_of(key, stored)) {
            assert(conflicts(self@, key, stored));
        }
    }
}

/// Add a child to an inner node under a key byte that has no child yet.
///
/// A node that is full is replaced by a node of the next larger type, which
/// takes over the header and the children, before the child is written.
pub fn add_child<V, const PREFIX_LEN: usize>(
    node: &mut OpaqueNodePtr<V, PREFIX_LEN>,
    key_fragment: u8,
    child: OpaqueNodePtr<V, PREFIX_LEN>,
)
    requires
        !old(node).is_leaf(),
        old(node).node_valid(),
        old(node).child(key_fragment) is None,
    ensures
        !final(node).is_leaf(),
        final(node).node_valid(),
        final(node).child(key_fragment) == Some(child),
        forall|b: u8| b != key_fragment ==> final(node).child(b) == old(node).child(b),
        final(node).spec_header().prefix_len == old(node).spec_header().prefix_len,
        final(node).spec_header().prefix == old(node).spec_header().prefix,
        final(node).spec_header().num_children == old(node).spec_header().num_children + 1,
        final(node).spec_node_type() == (if old(node).spec_header().num_children >= old(
            node,
        ).spec_node_type().spec_upper_capacity() {
            old(node).spec_node_type().grown()
        } else {
            old(node).spec_node_type()
        }),
{
    proof {
        node.lemma_children_counted();
        lemma_count_not_full(|b: u8| node.child(b) is Some, key_fragment);
    }
    let grown: Option<OpaqueNodePtr<V, PREFIX_LEN>> = match &mut node.0 {
        ConcreteNodePtr::Node4(pointer) => {
            if pointer.0.is_full() {
                let mut grown = pointer.0.grow();
                grown.write_child(key_fragment, child);
                Some(NodePtr::allocate_node_ptr(grown).to_opaque())
            } else {
                pointer.0.write_child(key_fragment, child);
                None
            }
        },
        ConcreteNodePtr::Node16(pointer) => {
            if pointer.0.is_full() {
                let mut grown = pointer.0.grow();
                grown.write_child(key_fragment, child);
                Some(NodePtr::allocate_node_ptr(grown).to_opaque())
            } else {
                pointer.0.write_child(key_fragment, child);
                None
            }
        },
        ConcreteNodePtr::Node48(pointer) => {
            if pointer.0.is_full() {
                let mut grown = pointer.0.grow();
                grown.write_child(key_fragment, child);
                Some(NodePtr::allocate_node_ptr(grown).to_opaque())
            } else {
                pointer.0.write_child(key_fragment, child);
                None
            }
        },
        ConcreteNodePtr::Node256(pointer) => {
            pointer.0.write_child(key_fragment, child);
            None
        },
        ConcreteNodePtr::LeafNode(_) => None,
    };
    match grown {
        Some(grown) => {
            *node = grown;
        },
        None => {},
    }
}

/// Replace a leaf by an inner node of the smallest type that holds the leaf
/// and a new leaf with the given key and value.
///
/// `depth` is the position in the keys that the path to the leaf has
/// reached, and `shared` is the number of bytes from there on that the two
/// keys have in common, which become the prefix of the inner node. Both keys
/// go on behind them with different bytes, under which the two leaves stand.
pub fn split_leaf<V, const PREFIX_LEN: usize>(
    node: &mut OpaqueNodePtr<V, PREFIX_LEN>,
    key: Vec<u8>,
    value: V,
    depth: usize,
    shared: usize,
)
    requires
        old(node).is_leaf(),
        depth + shared < key@.len(),
        depth + shared < old(node).leaf().key@.len(),
        key@.subrange(0, depth + shared) == old(node).leaf().key@.subrange(0, depth + shared),
        key@[depth + shared] != old(node).leaf().key@[depth + shared],
    ensures
        final(node).spec_node_type() == NodeType::Node4,
        final(node).spec_header().num_children == 2,
        final(node).spec_header().prefix_len == shared,
        final(node).consistent(key@.subrange(0, depth as int)),
        final(node)@ == old(node)@.insert(key@, value),
        final(node).child(key@[depth + shared]) == Some(
            (LeafNode::<V, PREFIX_LEN> { key, value }).spec_to_opaque(),
        ),
        final(node).child(old(node).leaf().key@[depth + shared]) == Some(*old(node)),
        forall|b: u8|
            b != key@[depth + shared] && b != old(node).leaf().key@[depth + shared]
                ==> final(node).child(b) is None,
{
    let ghost before = *node;
    let ghost new_key = key@;
    let ghost old_key = node.leaf().key@;
    let ghost path = key@.subrange(0, depth as int);
    let ghost prefix = key@.subrange(depth as int, depth + shared);
    proof {
        assert(key.len() == key@.len());
    }
    let old_byte: u8 = match &node.0 {
        ConcreteNodePtr::LeafNode(leaf) => leaf.0.key[depth + shared],
        _ => 0,
    };
    let new_byte: u8 = key[depth + shared];
    let mut inner: InnerNode4<V, PREFIX_LEN> = InnerNode4::<V, PREFIX_LEN>::from_prefix(
        vstd::slice::slice_subrange(key.as_slice(), depth, depth + shared),
        shared,
    );
    let new_leaf = NodePtr::allocate_node_ptr(LeafNode::new(key, value)).to_opaque();
    inner.write_child(new_byte, new_leaf);
    let mut replaced = NodePtr::allocate_node_ptr(inner).to_opaque();
    core::mem::swap(node, &mut replaced);
    match &mut node.0 {
        ConcreteNodePtr::Node4(pointer) => {
            pointer.0.write_child(old_byte, replaced);
        },
        _ => {},
    }
    proof {
        let after = *node;
        let whole = path + prefix;
        assert(whole =~= new_key.subrange(0, depth + shared));
        assert(whole.push(new_byte) =~= new_key.subrange(0, depth + shared + 1));
        assert(whole.push(old_byte) =~= old_key.subrange(0, depth + shared + 1)) by {
            assert forall|i: int| 0 <= i < depth + shared implies old_key[i] == whole[i] by {
                assert(old_key.subrange(0, depth + shared)[i] == new_key.subrange(
                    0,
                    depth + shared,
                )[i]);
            }
        }
        assert(after.spec_header().inline_prefix() =~= prefix.subrange(
            0,
            after.spec_header().inline_len(),
        ));
        assert forall|b: u8| #![trigger after.child(b)] after.child(b) is Some implies after.child(
            b,
        ).unwrap().populated() && after.child(b).unwrap().well_formed(whole.push(b)) by {
            if b != new_byte && b != old_byte {
                assert(after.child(b) is None);
            }
        }
        after.lemma_well_formed_from_children(path, prefix);
        assert(after.fits()) by {
            assert forall|b: u8| #![trigger after.child(b)] after.child(b) is Some implies after.child(
                b,
            ).unwrap().fits() by {
                if b != new_byte && b != old_byte {
                    assert(after.child(b) is None);
                }
            }
        }
        before.lemma_leaf_map();
        new_leaf.lemma_leaf_map();
        let target = before@.insert(new_key, value);
        assert forall|k: Seq<u8>|
            #![trigger after@.dom().contains(k)]
            #![trigger target.dom().contains(k)]
            after@.dom().contains(k) == target.dom().contains(k) && (after@.dom().contains(k)
                ==> after@[k] == target[k]) by {
            after.lemma_lookup(path, k);
            if k == old_key {
                assert(k[depth + shared] == old_byte);
            }
        }
        assert(after@ =~= target);
    }
}

/// Put an inner node of the smallest type above an inner node whose prefix
/// the key leaves after `matched_bytes` bytes, with a new leaf for the key and
/// value beside it.
///
/// The new node takes the first `matched_bytes` bytes of the prefix. The
/// node below stands under the next byte of its prefix, `prefix_byte`, and
/// keeps the rest of the prefix behind that byte; the new leaf stands under
/// the byte of the key at that place. `depth` is the position in the keys at
/// which the prefix starts. `witness` holds the whole prefix where the inline
/// buffer does not hold it.
pub fn split_inner<V, const PREFIX_LEN: usize>(
    node: &mut OpaqueNodePtr<V, PREFIX_LEN>,
    key: Vec<u8>,
    value: V,
    depth: usize,
    matched_bytes: usize,
    prefix_byte: u8,
    witness: Option<Vec<u8>>,
)
    requires
        !old(node).is_leaf(),
        depth + matched_bytes < key@.len(),
        old(node).consistent(key@.subrange(0, depth as int)),
        matched_bytes < old(node).spec_header().prefix_len,
        forall|i: int|
            0 <= i < matched_bytes ==> key@[depth + i] == old(node).full_prefix(depth as int)[i],
        prefix_byte == old(node).full_prefix(depth as int)[matched_bytes as int],
        key@[depth + matched_bytes] != prefix_byte,
        witness is Some <==> old(node).spec_header().prefix_len > PREFIX_LEN,
        witness matches Some(w) ==> w@ == old(node).full_prefix(depth as int),
    ensures
        final(node).spec_node_type() == NodeType::Node4,
        final(node).spec_header().num_children == 2,
        final(node).spec_header().prefix_len == matched_bytes,
        final(node).consistent(key@.subrange(0, depth as int)),
        final(node)@ == old(node)@.insert(key@, value),
        !old(node)@.contains_key(key@),
{
    let ghost before = *node;
    let ghost new_key = key@;
    let ghost path = key@.subrange(0, depth as int);
    let ghost full = node.full_prefix(depth as int);
    let ghost prefix = full.subrange(0, matched_bytes as int);
    let ghost rest = full.skip(matched_bytes + 1);
    let ghost below = (path + prefix).push(prefix_byte);
    proof {
        before.lemma_full_prefix_len(path);
        assert(key.len() == key@.len());
    }
    match node.header_mut() {
        Some(header) => {
            match &witness {
                Some(whole) => {
                    header.trim_left_with_leaf(matched_bytes + 1, 0, whole.as_slice());
                },
                None => {
                    header.trim_left(matched_bytes + 1);
                },
            }
        },
        None => {},
    }
    let ghost trimmed = *node;
    proof {
        assert(below + rest =~= path + full);
        assert(trimmed.spec_header().inline_prefix() =~= rest.subrange(
            0,
            trimmed.spec_header().inline_len(),
        ));
        assert forall|b: u8| #![trigger trimmed.child(b)] trimmed.child(b) is Some implies trimmed.child(
            b,
        ).unwrap().populated() && trimmed.child(b).unwrap().well_formed((below + rest).push(b)) by {
            assert(trimmed.child(b) == before.child(b));
        }
        trimmed.lemma_well_formed_from_children(below, rest);
        assert(trimmed.fits()) by {
            assert forall|b: u8| #![trigger trimmed.child(b)] trimmed.child(b) is Some implies trimmed.child(
                b,
            ).unwrap().fits() by {
                assert(trimmed.child(b) == before.child(b));
            }
        }
        before.lemma_same_children(trimmed);
    }
    let new_byte: u8 = key[depth + matched_bytes];
    let mut inner: InnerNode4<V, PREFIX_LEN> = InnerNode4::<V, PREFIX_LEN>::from_prefix(
        vstd::slice::slice_subrange(key.as_slice(), depth, depth + matched_bytes),
        matched_bytes,
    );
    let new_leaf = NodePtr::allocate_node_ptr(LeafNode::new(key, value)).to_opaque();
    inner.write_child(new_byte, new_leaf);
    let mut replaced = NodePtr::allocate_node_ptr(inner).to_opaque();
    core::mem::swap(node, &mut replaced);
    match &mut node.0 {
        ConcreteNodePtr::Node4(pointer) => {
            pointer.0.write_child(prefix_byte, replaced);
        },
        _ => {},
    }
    proof {
        let after = *node;
        let whole = path + prefix;
        assert(prefix =~= new_key.subrange(depth as int, depth + matched_bytes));
        assert(whole =~= new_key.subrange(0, depth + matched_bytes));
        assert(whole.push(new_byte) =~= new_key.subrange(0, depth + matched_bytes + 1));
        assert(after.spec_header().inline_prefix() =~= prefix.subrange(
            0,
            after.spec_header().inline_len(),
        ));
        assert forall|b: u8| #![trigger after.child(b)] after.child(b) is Some implies after.child(
            b,
        ).unwrap().populated() && after.child(b).unwrap().well_formed(whole.push(b)) by {
            if b != new_byte && b != prefix_byte {
                assert(after.child(b) is None);
            }
        }
        after.lemma_well_formed_from_children(path, prefix);
        assert(after.fits()) by {
            assert forall|b: u8| #![trigger after.child(b)] after.child(b) is Some implies after.child(
                b,
            ).unwrap().fits() by {
                if b != new_byte && b != prefix_byte {
                    assert(after.child(b) is None);
                }
            }
        }
        new_leaf.lemma_leaf_map();
        before.lemma_no_conflict_mismatch(path, new_key, depth + matched_bytes);
        let target = before@.insert(new_key, value);
        assert forall|k: Seq<u8>|
            #![trigger after@.dom().contains(k)]
            #![trigger target.dom().contains(k)]
            after@.dom().contains(k) == target.dom().contains(k) && (after@.dom().contains(k)
                ==> after@[k] == target[k]) by {
            after.lemma_lookup(path, k);
            before.lemma_lookup(path, k);
            if before@.contains_key(k) {
                assert(k.subrange(0, (path + full).len() as int)[depth + matched_bytes] == (path
                    + full)[depth + matched_bytes]);
            }
        }
        assert(after@ =~= target);
    }
}

/// Insert the key and value into the subtree below `node`, which the path
/// of the first `depth` bytes of the key leads to.
///
/// At a leaf with the same key the value is replaced. At a leaf with another
/// key the leaf is split, and at an inner node whose prefix the key leaves
/// the node is split. At an inner node whose prefix the key goes through,
/// the next byte of the key selects the child to go on with; where there is
/// no such child, a leaf is added in its place. A key that ends where the
/// keys below the node go on, or that goes on where the key of a leaf ends, is
/// in conflict with them and changes nothing.
pub fn insert_into<V, const PREFIX_LEN: usize>(
    node: &mut OpaqueNodePtr<V, PREFIX_LEN>,
    key: Vec<u8>,
    value: V,
    depth: usize,
) -> (result: InsertResult<V>)
    requires
        depth <= key@.len(),
        old(node).consistent(key@.subrange(0, depth as int)),
    ensures
        final(node).consistent(key@.subrange(0, depth as int)),
        inserted(old(node)@, key@, value, final(node)@, result),
    decreases key@.len() - depth,
{
    let ghost before = *node;
    let ghost new_key = key@;
    let ghost path = key@.subrange(0, depth as int);
    let key_len: usize = key.len();
    if node.node_type() == NodeType::Leaf {
        let (same, shared, leaf_len): (bool, usize, usize) = match &node.0 {
            ConcreteNodePtr::LeafNode(leaf) => {
                let stored = leaf.0.key.as_slice();
                (
                    bytes_eq(stored, key.as_slice()),
                    common_prefix(
                        vstd::slice::slice_subrange(stored, depth, stored.len()),
                        vstd::slice::slice_subrange(key.as_slice(), depth, key_len),
                    ),
                    stored.len(),
                )
            },
            _ => (false, 0, 0),
        };
        let ghost stored = before.leaf().key@;
        proof {
            before.lemma_leaf_map();
            before.lemma_conflict_leaf(new_key);
            lemma_common_prefix_len(stored.skip(depth as int), new_key.skip(depth as int));
            assert forall|i: int| 0 <= i < depth + shared implies stored[i] == new_key[i] by {
                if i < depth {
                    assert(stored.subrange(0, depth as int)[i] == path[i]);
                } else {
                    assert(stored.skip(depth as int)[i - depth] == new_key.skip(depth as int)[i
                        - depth]);
                }
            }
            assert(stored.subrange(0, depth + shared) =~= new_key.subrange(0, depth + shared));
        }
        if same {
            let mut value = value;
            match &mut node.0 {
                ConcreteNodePtr::LeafNode(leaf) => {
                    core::mem::swap(&mut leaf.0.value, &mut value);
                },
                _ => {},
            }
            proof {
                node.lemma_leaf_map();
                assert(node@ =~= before@.insert(new_key, node.leaf().value));
            }
            return InsertResult::Replaced(value);
        }
        if depth + shared == key_len {
            proof {
                assert(stored.subrange(0, new_key.len() as int) =~= new_key);
            }
            return InsertResult::PrefixConflict;
        }
        if depth + shared == leaf_len {
            proof {
                assert(new_key.subrange(0, stored.len() as int) =~= stored);
            }
            return InsertResult::PrefixConflict;
        }
        proof {
            assert(stored.skip(depth as int)[shared as int] == stored[depth + shared]);
            assert(new_key.skip(depth as int)[shared as int] == new_key[depth + shared]);
            crate::nodes::operations::insert::lemma_differ_no_prefix(
                new_key,
                stored,
                depth + shared,
            );
        }
        split_leaf(node, key, value, depth, shared);
        return InsertResult::Inserted;
    }
    proof {
        before.lemma_full_prefix_len(path);
        assert(before.well_formed_at(depth as int));
    }
    let ghost full = before.full_prefix(depth as int);
    let (matches, matched_bytes, prefix_byte, witness): (bool, usize, u8, Option<Vec<u8>>) =
        match node.match_prefix(key.as_slice(), depth) {
        MatchPrefixResult::Match { matched_bytes } => (true, matched_bytes, 0, None),
        MatchPrefixResult::Mismatch { mismatch } => {
            let witness: Option<Vec<u8>> = match mismatch.leaf_ptr {
                Some(leaf) => {
                    let len: usize = match node.header() {
                        Some(header) => header.prefix_len(),
                        None => 0,
                    };
                    let stored = leaf.key_ref().as_slice();
                    proof {
                        assert(stored.len() == stored@.len());
                        assert(before.well_formed(path));
                        assert(depth + len <= stored@.len());
                    }
                    Some(
                        vstd::slice::slice_to_vec(
                            vstd::slice::slice_subrange(stored, depth, depth + len),
                        ),
                    )
                },
                None => None,
            };
            (false, mismatch.matched_bytes, mismatch.prefix_byte, witness)
        },
    };
    proof {
        lemma_common_prefix_len(full, new_key.skip(depth as int));
        assert forall|i: int| 0 <= i < matched_bytes implies new_key[depth + i] == full[i] by {
            assert(new_key.skip(depth as int)[i] == full[i]);
        }
    }
    if !matches {
        if depth + matched_bytes == key_len {
            proof {
                assert((path + full).subrange(0, new_key.len() as int) =~= new_key);
                before.lemma_conflict_short(path, new_key);
            }
            return InsertResult::PrefixConflict;
        }
        proof {
            assert(new_key.skip(depth as int)[matched_bytes as int] == new_key[depth
                + matched_bytes]);
            before.lemma_no_conflict_mismatch(path, new_key, depth + matched_bytes);
        }
        split_inner(node, key, value, depth, matched_bytes, prefix_byte, witness);
        return InsertResult::Inserted;
    }
    let next_depth: usize = depth + matched_bytes;
    proof {
        lemma_matches_prefix(path, full, new_key);
    }
    if next_depth == key_len {
        proof {
            assert((path + full) =~= new_key);
            before.lemma_conflict_short(path, new_key);
        }
        return InsertResult::PrefixConflict;
    }
    let key_fragment: u8 = key[next_depth];
    proof {
        before.lemma_conflict_child(path, new_key);
        before.lemma_lookup(path, new_key);
        assert(new_key.subrange(0, next_depth + 1) =~= (path + full).push(key_fragment)) by {
            assert(new_key.subrange(0, next_depth as int) =~= path + full);
        }
        assert(before.spec_header().inline_prefix() =~= full.subrange(
            0,
            before.spec_header().inline_len(),
        ));
    }
    match node.lookup_child_mut(key_fragment) {
        Some(child) => {
            let result = insert_into(child, key, value, next_depth + 1);
            proof {
                let after = *node;
                assert forall|b: u8| #![trigger after.child(b)] after.child(b) is Some implies after.child(
                    b,
                ).unwrap().populated() && after.child(b).unwrap().well_formed(
                    (path + full).push(b),
                ) && after.child(b).unwrap().fits() by {
                    if b != key_fragment {
                        assert(after.child(b) == before.child(b));
                    }
                }
                after.lemma_well_formed_from_children(path, full);
                let target = if prefix_conflict(before@, new_key) {
                    before@
                } else {
                    before@.insert(new_key, value)
                };
                assert forall|k: Seq<u8>|
                    #![trigger after@.dom().contains(k)]
                    #![trigger target.dom().contains(k)]
                    after@.dom().contains(k) == target.dom().contains(k) && (after@.dom().contains(
                        k,
                    ) ==> after@[k] == target[k]) by {
                    after.lemma_lookup(path, k);
                    before.lemma_lookup(path, k);
                }
                assert(after@ =~= target);
            }
            result
        },
        None => {
            let new_leaf = NodePtr::allocate_node_ptr(LeafNode::new(key, value)).to_opaque();
            proof {
                before.lemma_children_counted();
                lemma_count_not_full(|b: u8| before.child(b) is Some, key_fragment);
            }
            add_child(node, key_fragment, new_leaf);
            proof {
                let after = *node;
                new_leaf.lemma_leaf_map();
                assert(after.spec_header().inline_prefix() =~= full.subrange(
                    0,
                    after.spec_header().inline_len(),
                ));
                assert forall|b: u8| #![trigger after.child(b)] after.child(b) is Some implies after.child(
                    b,
                ).unwrap().populated() && after.child(b).unwrap().well_formed(
                    (path + full).push(b),
                ) && after.child(b).unwrap().fits() by {
                    if b != key_fragment {
                        assert(after.child(b) == before.child(b));
                    }
                }
                after.lemma_well_formed_from_children(path, full);
                let target = before@.insert(new_key, value);
                assert forall|k: Seq<u8>|
                    #![trigger after@.dom().contains(k)]
                    #![trigger target.dom().contains(k)]
                    after@.dom().contains(k) == target.dom().contains(k) && (after@.dom().contains(
                        k,
                    ) ==> after@[k] == target[k]) by {
                    after.lemma_lookup(path, k);
                    before.lemma_lookup(path, k);
                }
                assert(after@ =~= target);
            }
            InsertResult::Inserted
        },
    }
}

/// The map that a tree with the given root denotes. A tree without a root
/// is empty.
pub open spec fn tree_map<V, const PREFIX_LEN: usize>(
    root: Option<OpaqueNodePtr<V, PREFIX_LEN>>,
) -> Map<Seq<u8>, V> {
    match root {
        Some(root) => root@,
        None => Map::empty(),
    }
}

/// The invariant of a tree at rest with the given root, if it has one.
pub open spec fn tree_consistent<V, const PREFIX_LEN: usize>(
    root: Option<OpaqueNodePtr<V, PREFIX_LEN>>,
) -> bool {
    match root {
        Some(root) => root.consistent(Seq::empty()),
        None => true,
    }
}

/// Insert the key and value into the tree with the given root.
///
/// Where the key is stored already, its value is replaced and the previous
/// value is handed out. Where the key is a prefix of a stored key, or a
/// stored key is a prefix of it, the insertion fails with a prefix conflict
/// and the tree stays as it was.
pub fn insert<V, const PREFIX_LEN: usize>(
    root: &mut Option<OpaqueNodePtr<V, PREFIX_LEN>>,
    key: Vec<u8>,
    value: V,
) -> (result: InsertResult<V>)
    requires
        tree_consistent(*old(root)),
    ensures
        *final(root) is Some,
        tree_consistent(*final(root)),
        inserted(tree_map(*old(root)), key@, value, tree_map(*final(root)), result),
        result is PrefixConflict ==> tree_same_shape(*final(root), *old(root)),
{
    assert(key@.subrange(0, 0) =~= Seq::empty());
    match root.as_mut() {
        Some(node) => {
            let result = insert_into(node, key, value, 0);
            proof {
                if result is PrefixConflict {
                    lemma_same_map_same_tree_shape(*root, *old(root));
                }
            }
            result
        },
        None => {
            let leaf = NodePtr::allocate_node_ptr(LeafNode::new(key, value)).to_opaque();
            proof {
                leaf.lemma_leaf_map();
                lemma_no_conflict_in_empty_map::<V>(key@);
            }
            *root = Some(leaf);
            InsertResult::Inserted
        },
    }
}

} // verus!
