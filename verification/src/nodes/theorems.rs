//! Theorems about trees.
//!
//! They speak of every inner node and every leaf that can be reached from a
//! root, of the order and the number of the leaves, and of what insertion,
//! deletion and lookup do in a row.

use crate::bytes::{
    bytes_lt, is_prefix_of, lemma_bytes_lt_asymmetric, lemma_bytes_lt_irreflexive,
    lemma_bytes_lt_total, lemma_bytes_lt_transitive,
};
use crate::nodes::counting::{lemma_count_same, lemma_count_two_witnesses};
use crate::nodes::model::{
    entries_contain, entries_index, entries_map, entries_sorted, lemma_sorted_index,
};
use crate::nodes::operations::delete::removed;
use crate::nodes::operations::insert::{
    conflicts, inserted, prefix_conflict, tree_consistent, tree_map, InsertResult,
};
use crate::nodes::representation::inner_node_compressed::keys_sorted;
use crate::nodes::representation::{ConcreteNodePtr, NodeType, OpaqueNodePtr};
use vstd::prelude::*;

verus! {

/// The order of byte strings, in which iteration yields the keys, is a
/// strict total order: no key comes before itself, of two keys that come
/// before each other in a row the first comes before the last, and of two
/// distinct keys exactly one comes before the other.
pub proof fn lemma_key_order(a: Seq<u8>, b: Seq<u8>, c: Seq<u8>)
    ensures
        !bytes_lt(a, a),
        bytes_lt(a, b) && bytes_lt(b, c) ==> bytes_lt(a, c),
        a != b ==> (bytes_lt(a, b) <==> !bytes_lt(b, a)),
{
    lemma_bytes_lt_irreflexive(a);
    if bytes_lt(a, b) && bytes_lt(b, c) {
        lemma_bytes_lt_transitive(a, b, c);
    }
    lemma_bytes_lt_total(a, b);
    if bytes_lt(a, b) {
        lemma_bytes_lt_asymmetric(a, b);
    }
}

/// Sorted entries without the first are sorted, and their map is the map of
/// all without the first key.
pub proof fn lemma_entries_drop_first<V>(entries: Seq<(Seq<u8>, V)>)
    requires
        entries_sorted(entries),
        entries.len() > 0,
    ensures
        entries_sorted(entries.drop_first()),
        entries_map(entries.drop_first()) == entries_map(entries).remove(entries[0].0),
{
    let rest = entries.drop_first();
    assert(entries_sorted(rest)) by {
        assert forall|i: int, j: int| 0 <= i < j < rest.len() implies bytes_lt(
            (#[trigger] rest[i]).0,
            (#[trigger] rest[j]).0,
        ) by {
            assert(bytes_lt(entries[i + 1].0, entries[j + 1].0));
        }
    }
    let target = entries_map(entries).remove(entries[0].0);
    assert forall|k: Seq<u8>|
        #![trigger entries_map(rest).dom().contains(k)]
        #![trigger target.dom().contains(k)]
        entries_map(rest).dom().contains(k) == target.dom().contains(k) && (entries_map(
            rest,
        ).dom().contains(k) ==> entries_map(rest)[k] == target[k]) by {
        if entries_contain(rest, k) {
            let j = entries_index(rest, k);
            lemma_sorted_index(rest, j);
            lemma_sorted_index(entries, j + 1);
            assert(entries[j + 1] == rest[j]);
            lemma_sorted_index(entries, 0);
        }
        if entries_contain(entries, k) && k != entries[0].0 {
            let i = entries_index(entries, k);
            assert(rest[i - 1] == entries[i]);
            lemma_sorted_index(rest, i - 1);
            lemma_sorted_index(entries, i);
        }
    }
    assert(entries_map(rest) =~= target);
}

/// The map of sorted entries has as many keys as there are entries.
pub proof fn lemma_entries_len<V>(entries: Seq<(Seq<u8>, V)>)
    requires
        entries_sorted(entries),
    ensures
        entries_map(entries).dom().finite(),
        entries_map(entries).dom().len() == entries.len(),
    decreases entries.len(),
{
    if entries.len() == 0 {
        assert(entries_map(entries).dom() =~= Set::<Seq<u8>>::empty());
    } else {
        lemma_entries_drop_first(entries);
        lemma_entries_len(entries.drop_first());
        lemma_sorted_index(entries, 0);
        let rest = entries_map(entries.drop_first()).dom();
        assert(entries_map(entries).dom() =~= rest.insert(entries[0].0));
    }
}

/// The first of sorted entries has the least key.
pub proof fn lemma_first_is_least<V>(entries: Seq<(Seq<u8>, V)>, key: Seq<u8>)
    requires
        entries_sorted(entries),
        entries_contain(entries, key),
    ensures
        key == entries[0].0 || bytes_lt(entries[0].0, key),
{
    let i = entries_index(entries, key);
    if i > 0 {
        assert(bytes_lt(entries[0].0, entries[i].0));
    }
}

/// Sorted entries are determined by their map.
pub proof fn lemma_sorted_entries_unique<V>(a: Seq<(Seq<u8>, V)>, b: Seq<(Seq<u8>, V)>)
    requires
        entries_sorted(a),
        entries_sorted(b),
        entries_map(a) == entries_map(b),
    ensures
        a == b,
    decreases a.len(),
{
    lemma_entries_len(a);
    lemma_entries_len(b);
    if a.len() > 0 {
        lemma_sorted_index(a, 0);
        lemma_sorted_index(b, 0);
        assert(entries_map(b).contains_key(a[0].0));
        assert(entries_map(a).contains_key(b[0].0));
        lemma_first_is_least(a, b[0].0);
        lemma_first_is_least(b, a[0].0);
        if a[0].0 != b[0].0 {
            lemma_bytes_lt_asymmetric(a[0].0, b[0].0);
        }
        assert(a[0] == b[0]);
        lemma_entries_drop_first(a);
        lemma_entries_drop_first(b);
        lemma_sorted_entries_unique(a.drop_first(), b.drop_first());
        assert(a =~= seq![a[0]] + a.drop_first());
        assert(b =~= seq![b[0]] + b.drop_first());
    } else {
        assert(a =~= b);
    }
}

impl<V, const PREFIX_LEN: usize> OpaqueNodePtr<V, PREFIX_LEN> {
    /// The node that a descent from this node reaches when it takes the
    /// children under the key bytes of `route` one after the other, together
    /// with the path of that node: `path`, which leads to this node,
    /// followed by the prefixes of the inner nodes on the way and the key
    /// bytes of `route`.
    pub open spec fn descend(self, path: Seq<u8>, route: Seq<u8>) -> Option<
        (OpaqueNodePtr<V, PREFIX_LEN>, Seq<u8>),
    >
        decreases route.len(),
    {
        if route.len() == 0 {
            Some((self, path))
        } else {
            match self.child(route[0]) {
                Some(child) => child.descend(
                    (path + self.full_prefix(path.len() as int)).push(route[0]),
                    route.drop_first(),
                ),
                None => None,
            }
        }
    }

    /// Every node that can be reached from a node that holds the invariant
    /// of a tree at rest holds it too, at the end of its own path.
    pub proof fn lemma_reachable_consistent(self, path: Seq<u8>, route: Seq<u8>)
        requires
            self.consistent(path),
            self.descend(path, route) is Some,
        ensures
            self.descend(path, route).unwrap().0.consistent(self.descend(path, route).unwrap().1),
        decreases route.len(),
    {
        if route.len() > 0 {
            let child = self.child(route[0]).unwrap();
            self.lemma_child_consistent(path, route[0]);
            child.lemma_reachable_consistent(
                (path + self.full_prefix(path.len() as int)).push(route[0]),
                route.drop_first(),
            );
        }
    }

    /// For every inner node reachable from the root of a tree at rest, the
    /// number of children lies in the range that the type of the node
    /// permits: 2 to 4, 5 to 16, 17 to 48 and 49 to 256.
    pub proof fn lemma_reachable_node_fits(self, route: Seq<u8>)
        requires
            self.consistent(Seq::empty()),
            self.descend(Seq::empty(), route) is Some,
            !self.descend(Seq::empty(), route).unwrap().0.is_leaf(),
        ensures
            ({
                let node = self.descend(Seq::empty(), route).unwrap().0;
                let count = node.spec_header().num_children;
                match node.spec_node_type() {
                    NodeType::Node4 => 2 <= count <= 4,
                    NodeType::Node16 => 5 <= count <= 16,
                    NodeType::Node48 => 17 <= count <= 48,
                    NodeType::Node256 => 49 <= count <= 256,
                    NodeType::Leaf => false,
                }
            }),
    {
        self.lemma_reachable_consistent(Seq::empty(), route);
    }

    /// For every inner node with a sorted key array that is reachable from
    /// the root of a well-formed tree, the keys in use are strictly
    /// ascending, and there is one for each child.
    pub proof fn lemma_reachable_keys_sorted(self, route: Seq<u8>)
        requires
            self.consistent(Seq::empty()),
            self.descend(Seq::empty(), route) is Some,
        ensures
            self.descend(Seq::empty(), route).unwrap().0.0 matches ConcreteNodePtr::Node4(n)
                ==> n.0.child_pointers@.len() == n.0.header.num_children && keys_sorted(
                n.0.keys@,
                n.0.header.num_children as int,
            ),
            self.descend(Seq::empty(), route).unwrap().0.0 matches ConcreteNodePtr::Node16(n)
                ==> n.0.child_pointers@.len() == n.0.header.num_children && keys_sorted(
                n.0.keys@,
                n.0.header.num_children as int,
            ),
    {
        self.lemma_reachable_consistent(Seq::empty(), route);
        let node = self.descend(Seq::empty(), route).unwrap().0;
        let path = self.descend(Seq::empty(), route).unwrap().1;
        if !node.is_leaf() {
            node.lemma_well_formed_inner(path);
        }
    }

    /// For every inner node with an index table that is reachable from the
    /// root of a well-formed tree, each entry of the table that is not empty
    /// points to a slot below the number of children, and distinct entries
    /// that are not empty point to distinct slots.
    pub proof fn lemma_reachable_indices(self, route: Seq<u8>)
        requires
            self.consistent(Seq::empty()),
            self.descend(Seq::empty(), route) is Some,
        ensures
            self.descend(Seq::empty(), route).unwrap().0.0 matches ConcreteNodePtr::Node48(n) ==> {
                &&& forall|b: int|
                    0 <= b < 256 && !(#[trigger] n.0.child_indices@[b]).spec_is_empty()
                        ==> n.0.child_indices@[b].0 < n.0.header.num_children
                &&& forall|a: int, b: int|
                    0 <= a < 256 && 0 <= b < 256 && a != b && !(
                    #[trigger] n.0.child_indices@[a]).spec_is_empty() && !(
                    #[trigger] n.0.child_indices@[b]).spec_is_empty() ==> n.0.child_indices@[a].0
                        != n.0.child_indices@[b].0
            },
    {
        self.lemma_reachable_consistent(Seq::empty(), route);
        let node = self.descend(Seq::empty(), route).unwrap().0;
        let path = self.descend(Seq::empty(), route).unwrap().1;
        if !node.is_leaf() {
            node.lemma_well_formed_inner(path);
        }
    }

    /// For every leaf reachable from the root of a well-formed tree, the key
    /// bytes and the prefixes on the way from the root to the leaf, one
    /// after the other, are the first bytes of the key of the leaf; they are
    /// the whole key where they are as many as the key has.
    pub proof fn lemma_reachable_leaf_path(self, route: Seq<u8>)
        requires
            self.consistent(Seq::empty()),
            self.descend(Seq::empty(), route) is Some,
            self.descend(Seq::empty(), route).unwrap().0.is_leaf(),
        ensures
            ({
                let leaf = self.descend(Seq::empty(), route).unwrap().0.leaf();
                let path = self.descend(Seq::empty(), route).unwrap().1;
                &&& is_prefix_of(path, leaf.key@)
                &&& path.len() == leaf.key@.len() ==> path == leaf.key@
            }),
    {
        self.lemma_reachable_consistent(Seq::empty(), route);
        let leaf = self.descend(Seq::empty(), route).unwrap().0.leaf();
        let path = self.descend(Seq::empty(), route).unwrap().1;
        if path.len() == leaf.key@.len() {
            assert(leaf.key@.subrange(0, path.len() as int) =~= leaf.key@);
        }
    }

    /// Forward iteration over a well-formed tree yields the keys in strictly
    /// ascending order: the leaves of the tree, which the iterator hands out
    /// one after the other, are sorted by key. Every node of such a tree has
    /// a valid representation, which is what the iterator asks for, and every
    /// inner node below a populated root has a child, which is what makes the
    /// size hints of the iterator lower bounds.
    pub proof fn lemma_leaves_ascending(self)
        requires
            self.well_formed(Seq::empty()),
        ensures
            entries_sorted(self.leaves()),
            self.subtree_valid(),
            self.populated() ==> self.subtree_populated(),
    {
        self.lemma_leaves_sorted(Seq::empty());
        self.lemma_subtree_valid(Seq::empty());
        if self.populated() {
            self.lemma_subtree_populated(Seq::empty());
        }
    }

    /// A well-formed tree has as many leaves as its map has keys.
    pub proof fn lemma_leaves_len(self)
        requires
            self.well_formed(Seq::empty()),
        ensures
            self@.dom().finite(),
            self@.dom().len() == self.leaves().len(),
    {
        self.lemma_leaves_sorted(Seq::empty());
        lemma_entries_len(self.leaves());
    }

    /// Two well-formed trees with the same map have the same leaves in the
    /// same order.
    pub proof fn lemma_same_map_same_leaves(self, other: Self)
        requires
            self.well_formed(Seq::empty()),
            other.well_formed(Seq::empty()),
            self@ == other@,
        ensures
            self.leaves() == other.leaves(),
    {
        self.lemma_leaves_sorted(Seq::empty());
        other.lemma_leaves_sorted(Seq::empty());
        lemma_sorted_entries_unique(self.leaves(), other.leaves());
    }
}

impl<V, const PREFIX_LEN: usize> OpaqueNodePtr<V, PREFIX_LEN> {
    /// Two subtrees have the same shape: they cannot be told apart but by
    /// the places of their nodes in memory, the order of the child pointers
    /// behind an index table and the bytes of the inline buffers that are
    /// not in use.
    ///
    /// Two leaves have the same shape where they hold the same key and
    /// value. Two inner nodes have the same shape where they have the same
    /// type, the same number of children, the same length of prefix and the
    /// same inline bytes, and children of the same shape under the same key
    /// bytes.
    pub open spec fn same_shape(self, other: Self) -> bool
        decreases self,
    {
        if self.is_leaf() {
            &&& other.is_leaf()
            &&& self.leaf().key@ == other.leaf().key@
            &&& self.leaf().value == other.leaf().value
        } else {
            &&& !other.is_leaf()
            &&& self.spec_node_type() == other.spec_node_type()
            &&& self.spec_header().num_children == other.spec_header().num_children
            &&& self.spec_header().prefix_len == other.spec_header().prefix_len
            &&& self.spec_header().inline_prefix() == other.spec_header().inline_prefix()
            &&& forall|b: u8|
                #![trigger self.child(b)]
                match self.child(b) {
                    Some(child) => other.child(b) is Some && child.same_shape(
                        other.child(b).unwrap(),
                    ),
                    None => other.child(b) is None,
                }
        }
    }

    /// An inner node that holds the invariant of a tree at rest has two
    /// leaves below it that stand under different key bytes.
    pub proof fn lemma_two_leaves(self, path: Seq<u8>) -> (found: (u8, int, u8, int))
        requires
            !self.is_leaf(),
            self.consistent(path),
        ensures
            found.0 != found.2,
            self.child(found.0) is Some,
            self.child(found.2) is Some,
            0 <= found.1 < self.child(found.0).unwrap().leaves().len(),
            0 <= found.3 < self.child(found.2).unwrap().leaves().len(),
            self.leaves().len() >= 2,
    {
        self.lemma_fits_inner();
        self.lemma_well_formed_inner(path);
        self.lemma_children_counted();
        let pair = lemma_count_two_witnesses(|b: u8| self.child(b) is Some, 0, 256);
        let full = self.full_prefix(path.len() as int);
        let first = self.child(pair.0).unwrap();
        let second = self.child(pair.1).unwrap();
        first.lemma_has_leaf((path + full).push(pair.0));
        second.lemma_has_leaf((path + full).push(pair.1));
        self.lemma_between_at(0, pair.0, 256);
        self.lemma_between_at(pair.0 + 1, pair.1, 256);
        (pair.0, 0, pair.1, 0)
    }

    /// The key of a leaf below the child under a key byte of a well-formed
    /// inner node is a key of the node, starts with the path and the prefix
    /// of the node and goes on with that key byte.
    pub proof fn lemma_leaf_under(self, path: Seq<u8>, b: u8, j: int)
        requires
            !self.is_leaf(),
            self.well_formed(path),
            self.child(b) is Some,
            0 <= j < self.child(b).unwrap().leaves().len(),
        ensures
            ({
                let key = self.child(b).unwrap().leaves()[j].0;
                let depth = path.len() + self.spec_header().prefix_len;
                &&& self@.contains_key(key)
                &&& self.child(b).unwrap()@.contains_key(key)
                &&& is_prefix_of(path + self.full_prefix(path.len() as int), key)
                &&& key.len() > depth
                &&& key[depth] == b
            }),
    {
        let child = self.child(b).unwrap();
        let full = self.full_prefix(path.len() as int);
        let longer = (path + full).push(b);
        let key = child.leaves()[j].0;
        self.lemma_full_prefix_len(path);
        self.lemma_well_formed_inner(path);
        child.lemma_leaves_sorted(longer);
        lemma_sorted_index(child.leaves(), j);
        child.lemma_leaves_extend_path(longer);
        assert(is_prefix_of(longer, key));
        assert(key.subrange(0, longer.len() as int)[longer.len() - 1] == b);
        self.lemma_lookup(path, key);
    }

    /// Two inner nodes that hold the invariant of a tree at rest at the end
    /// of the same path and have the same map have the same prefix.
    pub proof fn lemma_same_map_same_prefix(self, other: Self, path: Seq<u8>)
        requires
            !self.is_leaf(),
            !other.is_leaf(),
            self.consistent(path),
            other.consistent(path),
            self@ == other@,
        ensures
            self.full_prefix(path.len() as int) == other.full_prefix(path.len() as int),
            self.spec_header().prefix_len == other.spec_header().prefix_len,
            self.spec_header().inline_prefix() == other.spec_header().inline_prefix(),
    {
        let depth = path.len() as int;
        let mine = self.full_prefix(depth);
        let theirs = other.full_prefix(depth);
        self.lemma_full_prefix_len(path);
        other.lemma_full_prefix_len(path);
        self.lemma_inline_prefix(path);
        other.lemma_inline_prefix(path);
        let a = self.lemma_two_leaves(path);
        let b = other.lemma_two_leaves(path);
        let ax = self.child(a.0).unwrap().leaves()[a.1].0;
        let ay = self.child(a.2).unwrap().leaves()[a.3].0;
        let bx = other.child(b.0).unwrap().leaves()[b.1].0;
        let by = other.child(b.2).unwrap().leaves()[b.3].0;
        self.lemma_leaf_under(path, a.0, a.1);
        self.lemma_leaf_under(path, a.2, a.3);
        other.lemma_leaf_under(path, b.0, b.1);
        other.lemma_leaf_under(path, b.2, b.3);
        self.lemma_lookup(path, bx);
        self.lemma_lookup(path, by);
        other.lemma_lookup(path, ax);
        other.lemma_lookup(path, ay);
        if mine.len() < theirs.len() {
            let at = depth + mine.len();
            assert(ax.subrange(0, (path + theirs).len() as int)[at] == (path + theirs)[at]);
            assert(ay.subrange(0, (path + theirs).len() as int)[at] == (path + theirs)[at]);
        }
        if theirs.len() < mine.len() {
            let at = depth + theirs.len();
            assert(bx.subrange(0, (path + mine).len() as int)[at] == (path + mine)[at]);
            assert(by.subrange(0, (path + mine).len() as int)[at] == (path + mine)[at]);
        }
        assert(mine.len() == theirs.len());
        assert(mine =~= theirs) by {
            assert forall|i: int| 0 <= i < mine.len() implies mine[i] == theirs[i] by {
                assert(ax.subrange(0, (path + theirs).len() as int)[depth + i] == (path
                    + theirs)[depth + i]);
                assert(ax.subrange(0, (path + mine).len() as int)[depth + i] == (path + mine)[depth
                    + i]);
            }
        }
    }

    /// Two inner nodes that hold the invariant of a tree at rest at the end
    /// of the same path and have the same map have children under the same
    /// key bytes, and the children under the same key byte have the same map.
    pub proof fn lemma_same_map_same_children(self, other: Self, path: Seq<u8>, x: u8)
        requires
            !self.is_leaf(),
            !other.is_leaf(),
            self.consistent(path),
            other.consistent(path),
            self@ == other@,
        ensures
            self.child(x) is Some <==> other.child(x) is Some,
            self.child(x) is Some ==> self.child(x).unwrap()@ == other.child(x).unwrap()@,
    {
        self.lemma_same_map_same_prefix(other, path);
        let full = self.full_prefix(path.len() as int);
        let below = (path + full).push(x);
        self.lemma_well_formed_inner(path);
        other.lemma_well_formed_inner(path);
        if self.child(x) is Some {
            let child = self.child(x).unwrap();
            child.lemma_has_leaf(below);
            self.lemma_leaf_under(path, x, 0);
            other.lemma_lookup(path, child.leaves()[0].0);
        }
        if other.child(x) is Some {
            let child = other.child(x).unwrap();
            child.lemma_has_leaf(below);
            other.lemma_leaf_under(path, x, 0);
            self.lemma_lookup(path, child.leaves()[0].0);
        }
        if self.child(x) is Some {
            let child = self.child(x).unwrap();
            let peer = other.child(x).unwrap();
            assert forall|k: Seq<u8>|
                #![trigger child@.dom().contains(k)]
                #![trigger peer@.dom().contains(k)]
                child@.dom().contains(k) == peer@.dom().contains(k) && (child@.dom().contains(k)
                    ==> child@[k] == peer@[k]) by {
                self.lemma_lookup(path, k);
                other.lemma_lookup(path, k);
                if child@.contains_key(k) {
                    child.lemma_leaves_sorted(below);
                    let j = entries_index(child.leaves(), k);
                    lemma_sorted_index(child.leaves(), j);
                    self.lemma_leaf_under(path, x, j);
                }
                if peer@.contains_key(k) {
                    peer.lemma_leaves_sorted(below);
                    let j = entries_index(peer.leaves(), k);
                    lemma_sorted_index(peer.leaves(), j);
                    other.lemma_leaf_under(path, x, j);
                }
            }
            assert(child@ =~= peer@);
        }
    }

    /// The shape of a tree at rest is determined by its map: two subtrees
    /// that hold the invariant at the end of the same path and have the same
    /// map have the same shape.
    pub proof fn lemma_same_map_same_shape(self, other: Self, path: Seq<u8>)
        requires
            self.consistent(path),
            other.consistent(path),
            self@ == other@,
        ensures
            self.same_shape(other),
        decreases self,
    {
        self.lemma_leaves_sorted(path);
        other.lemma_leaves_sorted(path);
        lemma_sorted_entries_unique(self.leaves(), other.leaves());
        if self.is_leaf() {
            if !other.is_leaf() {
                let found = other.lemma_two_leaves(path);
            }
            assert(self.leaves()[0] == other.leaves()[0]);
        } else if other.is_leaf() {
            let found = self.lemma_two_leaves(path);
        } else {
            self.lemma_same_map_same_prefix(other, path);
            self.lemma_fits_inner();
            other.lemma_fits_inner();
            let full = self.full_prefix(path.len() as int);
            assert forall|x: u8| #![trigger self.child(x)] match self.child(x) {
                Some(child) => other.child(x) is Some && child.same_shape(other.child(x).unwrap()),
                None => other.child(x) is None,
            } by {
                self.lemma_same_map_same_children(other, path, x);
                if self.child(x) is Some {
                    self.lemma_child_consistent(path, x);
                    other.lemma_child_consistent(path, x);
                    self.child(x).unwrap().lemma_same_map_same_shape(
                        other.child(x).unwrap(),
                        (path + full).push(x),
                    );
                }
            }
            self.lemma_children_counted();
            other.lemma_children_counted();
            assert forall|b: u8|
                (#[trigger] self.child(b) is Some) == (#[trigger] other.child(b) is Some) by {
                self.lemma_same_map_same_children(other, path, b);
            }
            lemma_count_same(
                |b: u8| self.child(b) is Some,
                |b: u8| other.child(b) is Some,
                0,
                256,
            );
            assert(self.spec_header().num_children == other.spec_header().num_children);
            assert(self.spec_node_type() == other.spec_node_type());
        }
    }
}

/// The leaves of a tree with the given root, in the order of their keys. A
/// tree without a root has none.
pub open spec fn tree_leaves<V, const PREFIX_LEN: usize>(
    root: Option<OpaqueNodePtr<V, PREFIX_LEN>>,
) -> Seq<(Seq<u8>, V)> {
    match root {
        Some(root) => root.leaves(),
        None => Seq::empty(),
    }
}

/// A tree at rest has as many leaves as its map has keys.
pub proof fn lemma_tree_leaves_len<V, const PREFIX_LEN: usize>(
    root: Option<OpaqueNodePtr<V, PREFIX_LEN>>,
)
    requires
        tree_consistent(root),
    ensures
        tree_map(root).dom().finite(),
        tree_map(root).dom().len() == tree_leaves(root).len(),
{
    match root {
        Some(root) => {
            root.lemma_leaves_len();
        },
        None => {},
    }
}

/// The number of leaves of a tree is the number of insertions that added a
/// key: an insertion that adds a key adds one leaf, and an insertion that
/// replaces a value or fails leaves the number of leaves as it is.
pub proof fn lemma_insert_counts<V, const PREFIX_LEN: usize>(
    before: Option<OpaqueNodePtr<V, PREFIX_LEN>>,
    key: Seq<u8>,
    value: V,
    after: Option<OpaqueNodePtr<V, PREFIX_LEN>>,
    result: InsertResult<V>,
)
    requires
        tree_consistent(before),
        tree_consistent(after),
        inserted(tree_map(before), key, value, tree_map(after), result),
    ensures
        tree_leaves(after).len() == tree_leaves(before).len() + (if result is Inserted {
            1int
        } else {
            0int
        }),
{
    lemma_tree_leaves_len(before);
    lemma_tree_leaves_len(after);
    let dom = tree_map(before).dom();
    if !prefix_conflict(tree_map(before), key) {
        assert(tree_map(after).dom() =~= dom.insert(key));
    }
}

/// The number of leaves of a tree goes down by one with each deletion that
/// finds its key, and stays as it is with each deletion that does not.
pub proof fn lemma_remove_counts<V, const PREFIX_LEN: usize>(
    before: Option<OpaqueNodePtr<V, PREFIX_LEN>>,
    key: Seq<u8>,
    after: Option<OpaqueNodePtr<V, PREFIX_LEN>>,
    result: Option<V>,
)
    requires
        tree_consistent(before),
        tree_consistent(after),
        removed(tree_map(before), key, tree_map(after), result),
    ensures
        tree_leaves(after).len() == tree_leaves(before).len() - (if result is Some {
            1int
        } else {
            0int
        }),
{
    lemma_tree_leaves_len(before);
    lemma_tree_leaves_len(after);
    let dom = tree_map(before).dom();
    assert(tree_map(after).dom() =~= dom.remove(key));
}

/// What an iteration hands out that takes the first of what is left again
/// and again.
pub open spec fn front_order<E>(left: Seq<E>) -> Seq<E>
    decreases left.len(),
{
    if left.len() == 0 {
        Seq::empty()
    } else {
        seq![left.first()] + front_order(left.drop_first())
    }
}

/// What an iteration hands out that takes the last of what is left again and
/// again.
pub open spec fn back_order<E>(left: Seq<E>) -> Seq<E>
    decreases left.len(),
{
    if left.len() == 0 {
        Seq::empty()
    } else {
        seq![left.last()] + back_order(left.drop_last())
    }
}

/// Iteration from the front hands out what is left in its order, and
/// iteration from the back hands out the reverse of that.
pub proof fn lemma_back_order_is_reverse<E>(left: Seq<E>)
    ensures
        front_order(left) == left,
        back_order(left) == front_order(left).reverse(),
    decreases left.len(),
{
    if left.len() > 0 {
        lemma_back_order_is_reverse(left.drop_first());
        lemma_back_order_is_reverse(left.drop_last());
        assert(front_order(left) =~= left);
        assert(back_order(left) =~= left.reverse()) by {
            let rest = left.drop_last();
            assert(back_order(rest) =~= rest.reverse());
            assert forall|i: int| 0 <= i < left.len() implies back_order(left)[i]
                == left.reverse()[i] by {
                if i > 0 {
                    assert(back_order(left)[i] == rest.reverse()[i - 1]);
                }
            }
        }
    } else {
        assert(back_order(left) =~= front_order(left).reverse());
    }
}

/// A key that an insertion stored is in no new conflict: the keys that are
/// in conflict with it were there before.
pub proof fn lemma_conflict_after_insert<V>(map: Map<Seq<u8>, V>, key: Seq<u8>, value: V)
    ensures
        prefix_conflict(map.insert(key, value), key) == prefix_conflict(map, key),
{
    let after = map.insert(key, value);
    if prefix_conflict(after, key) {
        let other = choose|other: Seq<u8>| #[trigger] conflicts(after, key, other);
        assert(conflicts(map, key, other));
    }
    if prefix_conflict(map, key) {
        let other = choose|other: Seq<u8>| #[trigger] conflicts(map, key, other);
        assert(conflicts(after, key, other));
    }
}

/// After a key and value were inserted, a lookup of the key yields the
/// value. A second insertion under the key returns the first value, and a
/// lookup yields the second value then.
pub proof fn lemma_insert_then_search<V, const PREFIX_LEN: usize>(
    start: Option<OpaqueNodePtr<V, PREFIX_LEN>>,
    key: Seq<u8>,
    first: V,
    once: Option<OpaqueNodePtr<V, PREFIX_LEN>>,
    first_result: InsertResult<V>,
    second: V,
    twice: Option<OpaqueNodePtr<V, PREFIX_LEN>>,
    second_result: InsertResult<V>,
)
    requires
        inserted(tree_map(start), key, first, tree_map(once), first_result),
        !(first_result is PrefixConflict),
        inserted(tree_map(once), key, second, tree_map(twice), second_result),
    ensures
        tree_map(once).contains_key(key),
        tree_map(once)[key] == first,
        second_result == InsertResult::Replaced(first),
        tree_map(twice).contains_key(key),
        tree_map(twice)[key] == second,
{
    lemma_conflict_after_insert(tree_map(start), key, first);
}

/// After a key that was not stored was inserted and deleted again, a lookup
/// of the key finds nothing, the deletion has handed out the value, and the
/// tree has the map, the leaves and the shape that it had before.
pub proof fn lemma_insert_then_remove<V, const PREFIX_LEN: usize>(
    start: Option<OpaqueNodePtr<V, PREFIX_LEN>>,
    key: Seq<u8>,
    value: V,
    with_key: Option<OpaqueNodePtr<V, PREFIX_LEN>>,
    insert_result: InsertResult<V>,
    without_key: Option<OpaqueNodePtr<V, PREFIX_LEN>>,
    remove_result: Option<V>,
)
    requires
        tree_consistent(start),
        tree_consistent(without_key),
        !tree_map(start).contains_key(key),
        inserted(tree_map(start), key, value, tree_map(with_key), insert_result),
        insert_result is Inserted,
        removed(tree_map(with_key), key, tree_map(without_key), remove_result),
    ensures
        !tree_map(without_key).contains_key(key),
        remove_result == Some(value),
        tree_map(without_key) == tree_map(start),
        tree_leaves(without_key) == tree_leaves(start),
        tree_same_shape(without_key, start),
{
    assert(tree_map(without_key) =~= tree_map(start));
    lemma_same_map_same_tree_leaves(start, without_key);
    lemma_same_map_same_tree_shape(without_key, start);
}

/// Two trees have the same shape: both have no root, or both have roots
/// below which the subtrees have the same shape.
pub open spec fn tree_same_shape<V, const PREFIX_LEN: usize>(
    a: Option<OpaqueNodePtr<V, PREFIX_LEN>>,
    b: Option<OpaqueNodePtr<V, PREFIX_LEN>>,
) -> bool {
    match a {
        Some(a) => b is Some && a.same_shape(b.unwrap()),
        None => b is None,
    }
}

/// The shape of a tree at rest is determined by its map.
pub proof fn lemma_same_map_same_tree_shape<V, const PREFIX_LEN: usize>(
    a: Option<OpaqueNodePtr<V, PREFIX_LEN>>,
    b: Option<OpaqueNodePtr<V, PREFIX_LEN>>,
)
    requires
        tree_consistent(a),
        tree_consistent(b),
        tree_map(a) == tree_map(b),
    ensures
        tree_same_shape(a, b),
{
    lemma_same_map_same_tree_leaves(a, b);
    match (a, b) {
        (Some(a), Some(b)) => {
            a.lemma_same_map_same_shape(b, Seq::empty());
        },
        (Some(a), None) => {
            a.lemma_has_leaf(Seq::empty());
        },
        (None, Some(b)) => {
            b.lemma_has_leaf(Seq::empty());
        },
        (None, None) => {},
    }
}

/// Two trees at rest with the same map have the same leaves in the same
/// order.
pub proof fn lemma_same_map_same_tree_leaves<V, const PREFIX_LEN: usize>(
    a: Option<OpaqueNodePtr<V, PREFIX_LEN>>,
    b: Option<OpaqueNodePtr<V, PREFIX_LEN>>,
)
    requires
        tree_consistent(a),
        tree_consistent(b),
        tree_map(a) == tree_map(b),
    ensures
        tree_leaves(a) == tree_leaves(b),
{
    lemma_tree_leaves_len(a);
    lemma_tree_leaves_len(b);
    match (a, b) {
        (Some(a), Some(b)) => {
            a.lemma_same_map_same_leaves(b);
        },
        (Some(a), None) => {
            assert(a.leaves() =~= Seq::empty());
        },
        (None, Some(b)) => {
            assert(b.leaves() =~= Seq::empty());
        },
        (None, None) => {},
    }
}

/// The insertion of the entry at position `i` led from the tree at position
/// `i` to the tree at position `i + 1`, which is at rest, and added a key.
pub open spec fn insertion_step<V, const PREFIX_LEN: usize>(
    entries: Seq<(Seq<u8>, V)>,
    trees: Seq<Option<OpaqueNodePtr<V, PREFIX_LEN>>>,
    i: int,
) -> bool {
    &&& tree_consistent(trees[i + 1])
    &&& inserted(
        tree_map(trees[i]),
        entries[i].0,
        entries[i].1,
        tree_map(trees[i + 1]),
        InsertResult::Inserted,
    )
}

/// `trees` are the trees that the insertion of `entries`, one after the
/// other, into a tree without a root went through, where each insertion added
/// a key.
pub open spec fn grown_from<V, const PREFIX_LEN: usize>(
    entries: Seq<(Seq<u8>, V)>,
    trees: Seq<Option<OpaqueNodePtr<V, PREFIX_LEN>>>,
) -> bool {
    &&& trees.len() == entries.len() + 1
    &&& trees[0] is None
    &&& forall|i: int| 0 <= i < entries.len() ==> #[trigger] insertion_step(entries, trees, i)
}

/// One of the first `n` entries has the given key.
pub open spec fn among_first<V>(entries: Seq<(Seq<u8>, V)>, n: int, key: Seq<u8>) -> bool {
    exists|j: int| 0 <= j < n && (#[trigger] entries[j]).0 == key
}

/// After the first `n` insertions the map of the tree holds the first `n`
/// entries, whose keys are distinct, and nothing else.
pub proof fn lemma_grown_map<V, const PREFIX_LEN: usize>(
    entries: Seq<(Seq<u8>, V)>,
    trees: Seq<Option<OpaqueNodePtr<V, PREFIX_LEN>>>,
    n: int,
)
    requires
        grown_from(entries, trees),
        0 <= n <= entries.len(),
    ensures
        forall|k: Seq<u8>| #[trigger] tree_map(trees[n]).contains_key(k) == among_first(entries, n, k),
        forall|j: int|
            0 <= j < n ==> tree_map(trees[n])[(#[trigger] entries[j]).0] == entries[j].1,
    decreases n,
{
    if n > 0 {
        lemma_grown_map(entries, trees, n - 1);
        assert(insertion_step(entries, trees, n - 1));
        let before = tree_map(trees[n - 1]);
        let after = tree_map(trees[n]);
        let key = entries[n - 1].0;
        assert(!before.contains_key(key));
        assert forall|k: Seq<u8>| #[trigger] after.contains_key(k) == among_first(
            entries,
            n,
            k,
        ) by {
            if among_first(entries, n, k) {
                let j = choose|j: int| 0 <= j < n && (#[trigger] entries[j]).0 == k;
                if j < n - 1 {
                    assert(among_first(entries, n - 1, k));
                }
            }
            if after.contains_key(k) && k != key {
                assert(among_first(entries, n - 1, k));
                let j = choose|j: int| 0 <= j < n - 1 && (#[trigger] entries[j]).0 == k;
                assert(0 <= j < n && entries[j].0 == k);
            }
            if k == key {
                assert(0 <= n - 1 < n && entries[n - 1].0 == k);
            }
        }
        assert forall|j: int| 0 <= j < n implies after[(#[trigger] entries[j]).0]
            == entries[j].1 by {
            if j < n - 1 {
                assert(among_first(entries, n - 1, entries[j].0));
            }
        }
    } else {
        assert forall|k: Seq<u8>| #[trigger] tree_map(trees[n]).contains_key(k) == among_first(
            entries,
            n,
            k,
        ) by {}
    }
}

/// Inserting the same entries with distinct keys in any order yields trees
/// with the same leaves in the same order.
pub proof fn lemma_insertion_order<V, const PREFIX_LEN: usize>(
    entries: Seq<(Seq<u8>, V)>,
    trees: Seq<Option<OpaqueNodePtr<V, PREFIX_LEN>>>,
    permuted: Seq<(Seq<u8>, V)>,
    permuted_trees: Seq<Option<OpaqueNodePtr<V, PREFIX_LEN>>>,
)
    requires
        grown_from(entries, trees),
        grown_from(permuted, permuted_trees),
        entries.to_multiset() == permuted.to_multiset(),
    ensures
        tree_map(trees.last()) == tree_map(permuted_trees.last()),
        tree_leaves(trees.last()) == tree_leaves(permuted_trees.last()),
{
    let n = entries.len() as int;
    let m = permuted.len() as int;
    entries.to_multiset_ensures();
    permuted.to_multiset_ensures();
    lemma_grown_map(entries, trees, n);
    lemma_grown_map(permuted, permuted_trees, m);
    let a = tree_map(trees.last());
    let b = tree_map(permuted_trees.last());
    assert forall|k: Seq<u8>|
        #![trigger a.dom().contains(k)]
        #![trigger b.dom().contains(k)]
        a.dom().contains(k) == b.dom().contains(k) && (a.dom().contains(k) ==> a[k] == b[k]) by {
        if a.contains_key(k) {
            assert(among_first(entries, n, k));
            let j = choose|j: int| 0 <= j < n && (#[trigger] entries[j]).0 == k;
            assert(entries.contains(entries[j]));
            assert(permuted.to_multiset().count(entries[j]) > 0);
            assert(permuted.contains(entries[j]));
            let i = choose|i: int| 0 <= i < m && permuted[i] == entries[j];
            assert(0 <= i < m && permuted[i].0 == k);
            assert(among_first(permuted, m, k));
        }
        if b.contains_key(k) {
            assert(among_first(permuted, m, k));
            let j = choose|j: int| 0 <= j < m && (#[trigger] permuted[j]).0 == k;
            assert(permuted.contains(permuted[j]));
            assert(entries.to_multiset().count(permuted[j]) > 0);
            assert(entries.contains(permuted[j]));
            let i = choose|i: int| 0 <= i < n && entries[i] == permuted[j];
            assert(0 <= i < n && entries[i].0 == k);
            assert(among_first(entries, n, k));
        }
    }
    assert(a =~= b);
    if n > 0 {
        assert(insertion_step(entries, trees, n - 1));
    }
    if m > 0 {
        assert(insertion_step(permuted, permuted_trees, m - 1));
    }
    lemma_same_map_same_tree_leaves(trees.last(), permuted_trees.last());
}

} // verus!
