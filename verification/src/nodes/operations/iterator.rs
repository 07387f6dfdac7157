//! Iteration over the leaves of a tree in the order of their keys.

use crate::nodes::counting::{
    count_in, lemma_count_bound, lemma_count_none, lemma_count_same, lemma_count_split,
};
use crate::nodes::representation::inner_node_256::InnerNode256Iter;
use crate::nodes::representation::inner_node_48::Node48Iter;
use crate::nodes::representation::inner_node_compressed::InnerNodeCompressedIter;
use crate::nodes::representation::{ConcreteNodePtr, InnerNode, LeafNode, Node, OpaqueNodePtr};
use std::collections::VecDeque;
use vstd::prelude::*;

verus! {

/// A generic cursor that uses specific cursors for each
/// [`NodeType`][crate::nodes::representation::NodeType] (excluding leaves)
/// inside.
pub enum InnerNodeIter<'a, V, const PREFIX_LEN: usize> {
    /// A cursor over the children of an inner node of the smallest type.
    InnerNode4(InnerNodeCompressedIter<'a, V, PREFIX_LEN, 4>),
    /// A cursor over the children of an inner node with 16 key bytes.
    InnerNode16(InnerNodeCompressedIter<'a, V, PREFIX_LEN, 16>),
    /// A cursor over the children of an inner node with an index table.
    InnerNode48(Node48Iter<'a, V, PREFIX_LEN>),
    /// A cursor over the children of an inner node of the largest type.
    InnerNode256(InnerNode256Iter<'a, V, PREFIX_LEN>),
}

impl<'a, V, const PREFIX_LEN: usize> InnerNodeIter<'a, V, PREFIX_LEN> {
    /// The node whose children the cursor visits.
    pub open spec fn node(self) -> OpaqueNodePtr<V, PREFIX_LEN> {
        match self {
            InnerNodeIter::InnerNode4(cursor) => (*cursor.node).spec_to_opaque(),
            InnerNodeIter::InnerNode16(cursor) => (*cursor.node).spec_to_opaque(),
            InnerNodeIter::InnerNode48(cursor) => (*cursor.node).spec_to_opaque(),
            InnerNodeIter::InnerNode256(cursor) => (*cursor.node).spec_to_opaque(),
        }
    }

    /// The first key byte that the cursor has yet to visit.
    pub open spec fn lo(self) -> int {
        match self {
            InnerNodeIter::InnerNode4(cursor) => cursor.lo(),
            InnerNodeIter::InnerNode16(cursor) => cursor.lo(),
            InnerNodeIter::InnerNode48(cursor) => cursor.lo(),
            InnerNodeIter::InnerNode256(cursor) => cursor.lo(),
        }
    }

    /// The key byte behind the last one that the cursor has yet to visit.
    pub open spec fn hi(self) -> int {
        match self {
            InnerNodeIter::InnerNode4(cursor) => cursor.hi(),
            InnerNodeIter::InnerNode16(cursor) => cursor.hi(),
            InnerNodeIter::InnerNode48(cursor) => cursor.hi(),
            InnerNodeIter::InnerNode256(cursor) => cursor.hi(),
        }
    }

    /// The cursor stands within a node below which every node has a valid
    /// representation.
    pub open spec fn wf(self) -> bool {
        &&& self.node().subtree_valid()
        &&& 0 <= self.lo() <= 256
        &&& 0 <= self.hi() <= 256
        &&& match self {
            InnerNodeIter::InnerNode4(cursor) => cursor.wf(),
            InnerNodeIter::InnerNode16(cursor) => cursor.wf(),
            InnerNodeIter::InnerNode48(cursor) => cursor.wf(),
            InnerNodeIter::InnerNode256(cursor) => cursor.wf(),
        }
    }

    /// The leaves below the children that the cursor has yet to visit, in
    /// order.
    pub open spec fn pending_leaves(self) -> Seq<(Seq<u8>, V)> {
        self.node().leaves_between(self.lo(), self.hi())
    }

    /// The number of nodes below the children that the cursor has yet to
    /// visit, the children included.
    pub open spec fn pending_nodes(self) -> nat {
        self.node().node_count_between(self.lo(), self.hi())
    }

    /// Create a cursor over all the children of the given inner node.
    pub fn new(node: &'a OpaqueNodePtr<V, PREFIX_LEN>) -> (cursor: Self)
        requires
            !node.is_leaf(),
            node.subtree_valid(),
        ensures
            cursor.wf(),
            cursor.node() == *node,
            cursor.pending_leaves() == node.leaves(),
            cursor.pending_nodes() + 1 == node.node_count(),
            forall|x: u8| x < cursor.lo() || cursor.hi() <= x ==> node.child(x) is None,
    {
        let cursor = match &node.0 {
            ConcreteNodePtr::Node4(pointer) => InnerNodeIter::InnerNode4(pointer.0.iter()),
            ConcreteNodePtr::Node16(pointer) => InnerNodeIter::InnerNode16(pointer.0.iter()),
            ConcreteNodePtr::Node48(pointer) => InnerNodeIter::InnerNode48(pointer.0.iter()),
            ConcreteNodePtr::Node256(pointer) => InnerNodeIter::InnerNode256(pointer.0.iter()),
            ConcreteNodePtr::LeafNode(_) => unreached(),
        };
        proof {
            let lo = cursor.lo();
            let hi = cursor.hi();
            assert(cursor.node() == *node);
            if lo <= hi {
                node.lemma_between_split(0, lo, 256);
                node.lemma_between_split(lo, hi, 256);
                node.lemma_between_empty(0, lo);
                node.lemma_between_empty(hi, 256);
                node.lemma_count_between_split(0, lo, 256);
                node.lemma_count_between_split(lo, hi, 256);
                node.lemma_count_between_empty(0, lo);
                node.lemma_count_between_empty(hi, 256);
                assert(node.leaves_between(0, 256) =~= node.leaves_between(lo, hi));
            } else {
                node.lemma_between_empty(0, 256);
                node.lemma_count_between_empty(0, 256);
            }
        }
        cursor
    }

    /// Hand out the next child from the front, with its key byte.
    ///
    /// That child is the first that the cursor had yet to visit. The cursor
    /// goes on behind it.
    pub fn next(&mut self) -> (item: Option<(u8, &'a OpaqueNodePtr<V, PREFIX_LEN>)>)
        requires
            old(self).wf(),
        ensures
            final(self).wf(),
            final(self).node() == old(self).node(),
            final(self).hi() == old(self).hi(),
            item matches Some(entry) ==> {
                &&& old(self).lo() <= entry.0 < old(self).hi()
                &&& entry.0 < final(self).lo()
                &&& old(self).node().child(entry.0) == Some(*entry.1)
                &&& forall|x: u8|
                    old(self).lo() <= x < final(self).lo() && x != entry.0 ==> old(self).node().child(x) is None
                &&& old(self).pending_leaves() == entry.1.leaves() + final(self).pending_leaves()
                &&& old(self).pending_nodes() == entry.1.node_count()
                    + final(self).pending_nodes()
            },
            item is None ==> {
                &&& forall|x: u8|
                    old(self).lo() <= x < old(self).hi() ==> old(self).node().child(x) is None
                &&& old(self).pending_leaves() == Seq::<(Seq<u8>, V)>::empty()
                &&& final(self).pending_leaves() == Seq::<(Seq<u8>, V)>::empty()
                &&& old(self).pending_nodes() == 0
                &&& final(self).pending_nodes() == 0
            },
    {
        let ghost before = *self;
        let item = match self {
            InnerNodeIter::InnerNode4(cursor) => cursor.next(),
            InnerNodeIter::InnerNode16(cursor) => cursor.next(),
            InnerNodeIter::InnerNode48(cursor) => cursor.next(),
            InnerNodeIter::InnerNode256(cursor) => cursor.next(),
        };
        proof {
            let node = before.node();
            match item {
                Some(entry) => {
                    node.lemma_window_front(before.lo(), entry.0, self.lo(), before.hi());
                },
                None => {
                    if before.lo() <= before.hi() {
                        node.lemma_between_empty(before.lo(), before.hi());
                        node.lemma_count_between_empty(before.lo(), before.hi());
                    }
                    if self.lo() <= self.hi() {
                        node.lemma_between_empty(self.lo(), self.hi());
                        node.lemma_count_between_empty(self.lo(), self.hi());
                    }
                },
            }
        }
        item
    }

    /// Hand out the next child from the back, with its key byte.
    ///
    /// That child is the last that the cursor had yet to visit. The cursor
    /// goes on before it.
    pub fn next_back(&mut self) -> (item: Option<(u8, &'a OpaqueNodePtr<V, PREFIX_LEN>)>)
        requires
            old(self).wf(),
        ensures
            final(self).wf(),
            final(self).node() == old(self).node(),
            final(self).lo() == old(self).lo(),
            item matches Some(entry) ==> {
                &&& old(self).lo() <= entry.0 < old(self).hi()
                &&& final(self).hi() <= entry.0
                &&& old(self).node().child(entry.0) == Some(*entry.1)
                &&& forall|x: u8|
                    final(self).hi() <= x < old(self).hi() && x != entry.0 ==> old(self).node().child(x) is None
                &&& old(self).pending_leaves() == final(self).pending_leaves() + entry.1.leaves()
                &&& old(self).pending_nodes() == entry.1.node_count()
                    + final(self).pending_nodes()
            },
            item is None ==> {
                &&& forall|x: u8|
                    old(self).lo() <= x < old(self).hi() ==> old(self).node().child(x) is None
                &&& old(self).pending_leaves() == Seq::<(Seq<u8>, V)>::empty()
                &&& final(self).pending_leaves() == Seq::<(Seq<u8>, V)>::empty()
                &&& old(self).pending_nodes() == 0
                &&& final(self).pending_nodes() == 0
            },
    {
        let ghost before = *self;
        let item = match self {
            InnerNodeIter::InnerNode4(cursor) => cursor.next_back(),
            InnerNodeIter::InnerNode16(cursor) => cursor.next_back(),
            InnerNodeIter::InnerNode48(cursor) => cursor.next_back(),
            InnerNodeIter::InnerNode256(cursor) => cursor.next_back(),
        };
        proof {
            let node = before.node();
            match item {
                Some(entry) => {
                    node.lemma_window_back(before.lo(), self.hi(), entry.0, before.hi());
                },
                None => {
                    if before.lo() <= before.hi() {
                        node.lemma_between_empty(before.lo(), before.hi());
                        node.lemma_count_between_empty(before.lo(), before.hi());
                    }
                    if self.lo() <= self.hi() {
                        node.lemma_between_empty(self.lo(), self.hi());
                        node.lemma_count_between_empty(self.lo(), self.hi());
                    }
                },
            }
        }
        item
    }

    /// The number of children that are left, as a lower and an upper bound.
    ///
    /// A cursor over a sorted key array knows the number. A cursor over a
    /// table knows no more than that each key byte that it has yet to visit
    /// may have a child.
    pub open spec fn spec_size_hint(self) -> (usize, Option<usize>) {
        match self {
            InnerNodeIter::InnerNode4(cursor) => (
                (cursor.back - cursor.front) as usize,
                Some((cursor.back - cursor.front) as usize),
            ),
            InnerNodeIter::InnerNode16(cursor) => (
                (cursor.back - cursor.front) as usize,
                Some((cursor.back - cursor.front) as usize),
            ),
            InnerNodeIter::InnerNode48(cursor) => (
                0,
                Some(
                    if cursor.front <= cursor.back {
                        (cursor.back - cursor.front) as usize
                    } else {
                        0usize
                    },
                ),
            ),
            InnerNodeIter::InnerNode256(cursor) => (
                0,
                Some(
                    if cursor.front <= cursor.back {
                        (cursor.back - cursor.front) as usize
                    } else {
                        0usize
                    },
                ),
            ),
        }
    }

    /// The number of children that are left, as a lower and an upper bound.
    pub fn size_hint(&self) -> (hint: (usize, Option<usize>))
        requires
            self.wf(),
        ensures
            hint == self.spec_size_hint(),
    {
        match self {
            InnerNodeIter::InnerNode4(cursor) => cursor.size_hint(),
            InnerNodeIter::InnerNode16(cursor) => cursor.size_hint(),
            InnerNodeIter::InnerNode48(cursor) => cursor.size_hint(),
            InnerNodeIter::InnerNode256(cursor) => cursor.size_hint(),
        }
    }

    /// The number of children that the cursor has yet to visit.
    pub open spec fn pending_children(self) -> nat {
        count_in(|b: u8| self.node().child(b) is Some, self.lo(), self.hi())
    }

    /// The lower bound of the size hint does not exceed the number of
    /// children that are left, nor, where every inner node below has a
    /// child, the number of leaves that are left.
    pub proof fn lemma_size_hint_lower(self)
        requires
            self.wf(),
        ensures
            self.spec_size_hint().0 <= self.pending_children(),
            self.node().subtree_populated() ==> self.spec_size_hint().0
                <= self.pending_leaves().len(),
    {
        let node = self.node();
        match self {
            InnerNodeIter::InnerNode4(cursor) => {
                cursor.lemma_pending_positions();
                if self.lo() <= self.hi() {
                    lemma_count_same(
                        |b: u8| node.child(b) is Some,
                        |b: u8| cursor.node.compressed_child(b) is Some,
                        self.lo(),
                        self.hi(),
                    );
                }
            },
            InnerNodeIter::InnerNode16(cursor) => {
                cursor.lemma_pending_positions();
                if self.lo() <= self.hi() {
                    lemma_count_same(
                        |b: u8| node.child(b) is Some,
                        |b: u8| cursor.node.compressed_child(b) is Some,
                        self.lo(),
                        self.hi(),
                    );
                }
            },
            _ => {},
        }
        if node.subtree_populated() && self.lo() <= self.hi() {
            node.lemma_leaves_per_child(self.lo(), self.hi());
        }
    }

    /// Hand out the last child that the cursor has yet to visit, with its
    /// key byte.
    pub fn last(self) -> (item: Option<(u8, &'a OpaqueNodePtr<V, PREFIX_LEN>)>)
        requires
            self.wf(),
        ensures
            item matches Some(entry) ==> {
                &&& self.lo() <= entry.0 < self.hi()
                &&& self.node().child(entry.0) == Some(*entry.1)
                &&& forall|x: u8| entry.0 < x < self.hi() ==> self.node().child(x) is None
            },
            item is None ==> forall|x: u8| self.lo() <= x < self.hi() ==> self.node().child(x) is None,
    {
        let mut cursor = self;
        match &mut cursor {
            InnerNodeIter::InnerNode4(cursor) => cursor.next_back(),
            InnerNodeIter::InnerNode16(cursor) => cursor.next_back(),
            InnerNodeIter::InnerNode48(cursor) => cursor.next_back(),
            InnerNodeIter::InnerNode256(cursor) => cursor.next_back(),
        }
    }

    /// Count the children that the cursor has yet to visit.
    pub fn count(self) -> (count: usize)
        requires
            self.wf(),
        ensures
            count == self.pending_children(),
    {
        let ghost node = self.node();
        let ghost occupied = |b: u8| node.child(b) is Some;
        let ghost hi = self.hi();
        let mut cursor = self;
        let mut count: usize = 0;
        proof {
            if self.lo() <= hi {
                lemma_count_bound(occupied, self.lo(), hi);
                lemma_count_same(|b: u8| self.node().child(b) is Some, occupied, self.lo(), hi);
            }
        }
        loop
            invariant
                cursor.wf(),
                cursor.node() == node,
                cursor.hi() == hi,
                occupied == (|b: u8| node.child(b) is Some),
                count + count_in(occupied, cursor.lo(), hi) == count_in(occupied, self.lo(), hi),
                count_in(occupied, self.lo(), hi) <= 256,
                count_in(occupied, self.lo(), hi) == self.pending_children(),
            decreases count_in(occupied, cursor.lo(), hi),
        {
            let ghost before = cursor;
            let item = match &mut cursor {
                InnerNodeIter::InnerNode4(cursor) => cursor.next(),
                InnerNodeIter::InnerNode16(cursor) => cursor.next(),
                InnerNodeIter::InnerNode48(cursor) => cursor.next(),
                InnerNodeIter::InnerNode256(cursor) => cursor.next(),
            };
            match item {
                Some(entry) => {
                    proof {
                        let lo = before.lo();
                        let next = cursor.lo();
                        lemma_count_split(occupied, lo, entry.0 as int, hi);
                        lemma_count_none(occupied, lo, entry.0 as int);
                        assert(count_in(occupied, entry.0 as int, hi) == 1 + count_in(
                            occupied,
                            entry.0 + 1,
                            hi,
                        ));
                        if next <= hi {
                            lemma_count_split(occupied, entry.0 + 1, next, hi);
                            lemma_count_none(occupied, entry.0 + 1, next);
                        } else {
                            lemma_count_none(occupied, entry.0 + 1, hi);
                        }
                    }
                    count += 1;
                },
                None => {
                    proof {
                        if before.lo() <= hi {
                            lemma_count_none(occupied, before.lo(), hi);
                        }
                    }
                    return count;
                },
            }
        }
    }
}

/// The leaves that the cursors have yet to visit, cursor by cursor.
pub open spec fn cursors_leaves<'a, V, const PREFIX_LEN: usize>(
    cursors: Seq<InnerNodeIter<'a, V, PREFIX_LEN>>,
) -> Seq<(Seq<u8>, V)>
    decreases cursors.len(),
{
    if cursors.len() == 0 {
        Seq::empty()
    } else {
        cursors[0].pending_leaves() + cursors_leaves(cursors.subrange(1, cursors.len() as int))
    }
}

/// A measure of the work that is left for the cursors: it counts each
/// cursor once and each node that they have yet to visit twice.
pub open spec fn cursors_weight<'a, V, const PREFIX_LEN: usize>(
    cursors: Seq<InnerNodeIter<'a, V, PREFIX_LEN>>,
) -> nat
    decreases cursors.len(),
{
    if cursors.len() == 0 {
        0
    } else {
        1 + 2 * cursors[0].pending_nodes() + cursors_weight(
            cursors.subrange(1, cursors.len() as int),
        )
    }
}

/// The number of children that the cursors know to be left: the sum of the
/// lower bounds of their size hints.
pub open spec fn cursors_lower<'a, V, const PREFIX_LEN: usize>(
    cursors: Seq<InnerNodeIter<'a, V, PREFIX_LEN>>,
) -> nat
    decreases cursors.len(),
{
    if cursors.len() == 0 {
        0
    } else {
        cursors[0].spec_size_hint().0 as nat + cursors_lower(
            cursors.subrange(1, cursors.len() as int),
        )
    }
}

/// The sum of the lower bounds of well-formed cursors over nodes below which
/// every inner node has a child does not exceed the number of leaves that are
/// left.
pub proof fn lemma_cursors_lower<'a, V, const PREFIX_LEN: usize>(
    cursors: Seq<InnerNodeIter<'a, V, PREFIX_LEN>>,
)
    requires
        forall|i: int|
            0 <= i < cursors.len() ==> (#[trigger] cursors[i]).wf()
                && cursors[i].node().subtree_populated(),
    ensures
        cursors_lower(cursors) <= cursors_leaves(cursors).len(),
    decreases cursors.len(),
{
    if cursors.len() > 0 {
        let rest = cursors.subrange(1, cursors.len() as int);
        assert forall|i: int| 0 <= i < rest.len() implies (#[trigger] rest[i]).wf()
            && rest[i].node().subtree_populated() by {
            assert(rest[i] == cursors[i + 1]);
        }
        lemma_cursors_lower(rest);
        cursors[0].lemma_size_hint_lower();
    }
}

/// A cursor put in front of others adds its leaves in front of theirs, and
/// its weight to theirs.
pub proof fn lemma_cursors_front<'a, V, const PREFIX_LEN: usize>(
    cursor: InnerNodeIter<'a, V, PREFIX_LEN>,
    cursors: Seq<InnerNodeIter<'a, V, PREFIX_LEN>>,
)
    ensures
        cursors_leaves(seq![cursor] + cursors) == cursor.pending_leaves() + cursors_leaves(
            cursors,
        ),
        cursors_weight(seq![cursor] + cursors) == 1 + 2 * cursor.pending_nodes() + cursors_weight(
            cursors,
        ),
{
    let all = seq![cursor] + cursors;
    assert(all.subrange(1, all.len() as int) =~= cursors);
}

/// A cursor put behind others adds its leaves behind theirs, and its weight
/// to theirs.
pub proof fn lemma_cursors_back<'a, V, const PREFIX_LEN: usize>(
    cursors: Seq<InnerNodeIter<'a, V, PREFIX_LEN>>,
    cursor: InnerNodeIter<'a, V, PREFIX_LEN>,
)
    ensures
        cursors_leaves(cursors.push(cursor)) == cursors_leaves(cursors) + cursor.pending_leaves(),
        cursors_weight(cursors.push(cursor)) == cursors_weight(cursors) + 1 + 2
            * cursor.pending_nodes(),
    decreases cursors.len(),
{
    let all = cursors.push(cursor);
    if cursors.len() == 0 {
        assert(all.subrange(1, all.len() as int) =~= cursors);
        assert(cursors_leaves(all) =~= cursors_leaves(cursors) + cursor.pending_leaves());
    } else {
        let rest = cursors.subrange(1, cursors.len() as int);
        lemma_cursors_back(rest, cursor);
        assert(all.subrange(1, all.len() as int) =~= rest.push(cursor));
        assert(cursors_leaves(all) =~= cursors_leaves(cursors) + cursor.pending_leaves());
    }
}

/// An iterator over all the [`LeafNode`]s in a non-singleton tree.
///
/// Non-singleton here means that the tree has at least one inner node.
///
/// The iterator holds a deque of cursors. Those that the iteration from the
/// front has opened stand at its front, the last opened first; those that the
/// iteration from the back has opened stand at its back, the last opened
/// last.
pub struct InnerNodeTreeIterator<'a, V, const PREFIX_LEN: usize> {
    /// The cursors over the inner nodes that the iterator has entered and
    /// not left yet.
    pub node_iters: VecDeque<InnerNodeIter<'a, V, PREFIX_LEN>>,
}

impl<'a, V, const PREFIX_LEN: usize> InnerNodeTreeIterator<'a, V, PREFIX_LEN> {
    /// All the cursors are well-formed.
    pub open spec fn wf(self) -> bool {
        forall|i: int| 0 <= i < self.node_iters@.len() ==> (#[trigger] self.node_iters@[i]).wf()
    }

    /// The leaves that the iterator has yet to hand out, in the order of
    /// their keys.
    pub open spec fn remaining(self) -> Seq<(Seq<u8>, V)> {
        cursors_leaves(self.node_iters@)
    }

    /// Every inner node below the nodes of the cursors has a child.
    pub open spec fn populated(self) -> bool {
        forall|i: int|
            0 <= i < self.node_iters@.len() ==> (#[trigger] self.node_iters@[i]).node(
            ).subtree_populated()
    }

    /// Where every inner node has a child, the lower bound of the size hint
    /// does not exceed the number of leaves that are left.
    pub proof fn lemma_size_hint_lower(self)
        requires
            self.wf(),
            self.populated(),
        ensures
            cursors_lower(self.node_iters@) <= self.remaining().len(),
    {
        lemma_cursors_lower(self.node_iters@);
    }

    /// Create a new iterator that will visit all leaf nodes descended from
    /// the given inner node.
    pub fn new(root: &'a OpaqueNodePtr<V, PREFIX_LEN>) -> (iterator: Self)
        requires
            !root.is_leaf(),
            root.subtree_valid(),
        ensures
            iterator.wf(),
            iterator.remaining() == root.leaves(),
            root.subtree_populated() ==> iterator.populated(),
    {
        let mut trie_full_iter = InnerNodeTreeIterator { node_iters: VecDeque::new() };
        trie_full_iter.update_iters_front(root);
        proof {
            assert(trie_full_iter.remaining() =~= root.leaves());
        }
        trie_full_iter
    }

    /// Open a cursor over the children of the given inner node at the front
    /// of the deque.
    fn update_iters_front(&mut self, inner: &'a OpaqueNodePtr<V, PREFIX_LEN>)
        requires
            old(self).wf(),
            !inner.is_leaf(),
            inner.subtree_valid(),
        ensures
            final(self).wf(),
            final(self).remaining() == inner.leaves() + old(self).remaining(),
            cursors_weight(final(self).node_iters@) + 1 == cursors_weight(old(self).node_iters@) + 2
                * inner.node_count(),
            old(self).populated() && inner.subtree_populated() ==> final(self).populated(),
    {
        let cursor = InnerNodeIter::new(inner);
        proof {
            lemma_cursors_front(cursor, self.node_iters@);
        }
        self.node_iters.push_front(cursor);
    }

    /// Open a cursor over the children of the given inner node at the back
    /// of the deque.
    fn update_iters_back(&mut self, inner: &'a OpaqueNodePtr<V, PREFIX_LEN>)
        requires
            old(self).wf(),
            !inner.is_leaf(),
            inner.subtree_valid(),
        ensures
            final(self).wf(),
            final(self).remaining() == old(self).remaining() + inner.leaves(),
            cursors_weight(final(self).node_iters@) + 1 == cursors_weight(old(self).node_iters@) + 2
                * inner.node_count(),
            old(self).populated() && inner.subtree_populated() ==> final(self).populated(),
    {
        let cursor = InnerNodeIter::new(inner);
        proof {
            lemma_cursors_back(self.node_iters@, cursor);
        }
        self.node_iters.push_back(cursor);
    }

    /// A lower and an upper bound of the number of leaves that are left.
    ///
    /// Each cursor reports the number of children that it knows to be left,
    /// and the iterator sums them, up to the greatest number that the
    /// machine holds. There is no upper bound.
    pub fn size_hint(&self) -> (hint: (usize, Option<usize>))
        requires
            self.wf(),
        ensures
            hint.0 == (if cursors_lower(self.node_iters@) <= usize::MAX {
                cursors_lower(self.node_iters@) as usize
            } else {
                usize::MAX
            }),
            hint.1 is None,
    {
        let len: usize = self.node_iters.len();
        let ghost cursors = self.node_iters@;
        let mut lower: usize = 0;
        let mut i: usize = len;
        assert(cursors.subrange(len as int, len as int) =~= Seq::empty());
        while i > 0
            invariant
                i <= len,
                len == cursors.len(),
                cursors == self.node_iters@,
                self.wf(),
                lower == (if cursors_lower(cursors.subrange(i as int, len as int)) <= usize::MAX {
                    cursors_lower(cursors.subrange(i as int, len as int)) as usize
                } else {
                    usize::MAX
                }),
            decreases i,
        {
            i -= 1;
            let hint = self.node_iters[i].size_hint();
            proof {
                let tail = cursors.subrange(i as int, len as int);
                assert(tail.subrange(1, tail.len() as int) =~= cursors.subrange(
                    i + 1,
                    len as int,
                ));
                assert(tail[0] == cursors[i as int]);
            }
            lower = if hint.0 > usize::MAX - lower {
                usize::MAX
            } else {
                lower + hint.0
            };
        }
        assert(cursors.subrange(0, len as int) =~= cursors);
        (lower, None)
    }

    /// Hand out the leaf with the least key among those that are left.
    ///
    /// The cursor at the front of the deque is advanced. A leaf that it
    /// yields is handed out; for an inner node a cursor is opened at the front
    /// of the deque; a cursor that yields nothing is closed.
    pub fn next(&mut self) -> (leaf: Option<&'a LeafNode<V, PREFIX_LEN>>)
        requires
            old(self).wf(),
        ensures
            final(self).wf(),
            leaf matches Some(l) ==> {
                &&& old(self).remaining().len() > 0
                &&& (l.key@, l.value) == old(self).remaining().first()
                &&& final(self).remaining() == old(self).remaining().drop_first()
            },
            leaf is None ==> {
                &&& old(self).remaining().len() == 0
                &&& final(self).remaining().len() == 0
            },
            old(self).populated() ==> final(self).populated(),
    {
        loop
            invariant
                self.wf(),
                self.remaining() == old(self).remaining(),
                old(self).populated() ==> self.populated(),
            decreases cursors_weight(self.node_iters@),
        {
            let ghost cursors = self.node_iters@;
            match self.node_iters.pop_front() {
                None => {
                    return None;
                },
                Some(cursor) => {
                    let mut cursor = cursor;
                    let ghost rest = self.node_iters@;
                    let ghost opened = cursor;
                    proof {
                        assert(cursors[0].wf());
                        assert forall|i: int| 0 <= i < rest.len() implies (#[trigger] rest[i]).wf() by {
                            assert(cursors[i + 1].wf());
                        }
                        assert forall|i: int|
                            0 <= i < rest.len() && old(self).populated() implies (
                        #[trigger] rest[i]).node().subtree_populated() by {
                            assert(cursors[i + 1].node().subtree_populated());
                        }
                        if old(self).populated() {
                            assert(cursors[0].node().subtree_populated());
                        }
                    }
                    match cursor.next() {
                        None => {},
                        Some(entry) => {
                            let child: &'a OpaqueNodePtr<V, PREFIX_LEN> = entry.1;
                            proof {
                                lemma_cursors_front(cursor, rest);
                                assert(child.subtree_valid());
                            }
                            self.node_iters.push_front(cursor);
                            match &child.0 {
                                ConcreteNodePtr::LeafNode(leaf) => {
                                    proof {
                                        assert(old(self).remaining() =~= child.leaves()
                                            + self.remaining());
                                        assert(self.remaining() =~= old(self).remaining().drop_first());
                                    }
                                    return Some(leaf.as_ref());
                                },
                                _ => {
                                    self.update_iters_front(child);
                                    proof {
                                        assert(self.remaining() =~= old(self).remaining());
                                    }
                                },
                            }
                        },
                    }
                },
            }
        }
    }

    /// Hand out the leaf with the greatest key among those that are left.
    ///
    /// The cursor at the back of the deque is advanced from its back. A leaf
    /// that it yields is handed out; for an inner node a cursor is opened at
    /// the back of the deque; a cursor that yields nothing is closed.
    pub fn next_back(&mut self) -> (leaf: Option<&'a LeafNode<V, PREFIX_LEN>>)
        requires
            old(self).wf(),
        ensures
            final(self).wf(),
            leaf matches Some(l) ==> {
                &&& old(self).remaining().len() > 0
                &&& (l.key@, l.value) == old(self).remaining().last()
                &&& final(self).remaining() == old(self).remaining().drop_last()
            },
            leaf is None ==> {
                &&& old(self).remaining().len() == 0
                &&& final(self).remaining().len() == 0
            },
            old(self).populated() ==> final(self).populated(),
    {
        loop
            invariant
                self.wf(),
                self.remaining() == old(self).remaining(),
                old(self).populated() ==> self.populated(),
            decreases cursors_weight(self.node_iters@),
        {
            let ghost cursors = self.node_iters@;
            match self.node_iters.pop_back() {
                None => {
                    return None;
                },
                Some(cursor) => {
                    let mut cursor = cursor;
                    let ghost rest = self.node_iters@;
                    let ghost opened = cursor;
                    proof {
                        assert(cursors[cursors.len() - 1].wf());
                        assert forall|i: int| 0 <= i < rest.len() implies (#[trigger] rest[i]).wf() by {
                            assert(cursors[i].wf());
                        }
                        assert(cursors =~= rest.push(opened));
                        lemma_cursors_back(rest, opened);
                        assert forall|i: int|
                            0 <= i < rest.len() && old(self).populated() implies (
                        #[trigger] rest[i]).node().subtree_populated() by {
                            assert(cursors[i].node().subtree_populated());
                        }
                        if old(self).populated() {
                            assert(cursors[cursors.len() - 1].node().subtree_populated());
                        }
                    }
                    match cursor.next_back() {
                        None => {},
                        Some(entry) => {
                            let child: &'a OpaqueNodePtr<V, PREFIX_LEN> = entry.1;
                            proof {
                                lemma_cursors_back(rest, cursor);
                                assert(child.subtree_valid());
                            }
                            self.node_iters.push_back(cursor);
                            match &child.0 {
                                ConcreteNodePtr::LeafNode(leaf) => {
                                    proof {
                                        assert(old(self).remaining() =~= self.remaining()
                                            + child.leaves());
                                        assert(self.remaining() =~= old(self).remaining().drop_last());
                                    }
                                    return Some(leaf.as_ref());
                                },
                                _ => {
                                    self.update_iters_back(child);
                                    proof {
                                        assert(self.remaining() =~= old(self).remaining());
                                    }
                                },
                            }
                        },
                    }
                },
            }
        }
    }
}

/// An iterator over all the leaves in a tree.
///
/// The iterator borrows the tree: no mutating operation can occur while
/// an instance of the iterator is live.
pub enum TreeIterator<'a, V, const PREFIX_LEN: usize> {
    /// An iterator over a tree with only a single entry.
    Singleton(Option<&'a LeafNode<V, PREFIX_LEN>>),
    /// An iterator over a tree that has at least one inner node.
    InnerNode(InnerNodeTreeIterator<'a, V, PREFIX_LEN>),
}

impl<'a, V, const PREFIX_LEN: usize> TreeIterator<'a, V, PREFIX_LEN> {
    /// The iterator is well-formed.
    pub open spec fn wf(self) -> bool {
        match self {
            TreeIterator::Singleton(_) => true,
            TreeIterator::InnerNode(inner) => inner.wf(),
        }
    }

    /// The leaves that the iterator has yet to hand out, in the order of
    /// their keys.
    pub open spec fn remaining(self) -> Seq<(Seq<u8>, V)> {
        match self {
            TreeIterator::Singleton(Some(leaf)) => seq![(leaf.key@, leaf.value)],
            TreeIterator::Singleton(None) => Seq::empty(),
            TreeIterator::InnerNode(inner) => inner.remaining(),
        }
    }

    /// Every inner node below the nodes of the cursors has a child.
    pub open spec fn populated(self) -> bool {
        match self {
            TreeIterator::Singleton(_) => true,
            TreeIterator::InnerNode(inner) => inner.populated(),
        }
    }

    /// Where every inner node has a child, the lower bound of the size hint
    /// does not exceed the number of leaves that are left.
    pub proof fn lemma_size_hint_lower(self)
        requires
            self.wf(),
            self.populated(),
        ensures
            self matches TreeIterator::InnerNode(inner) ==> cursors_lower(inner.node_iters@)
                <= self.remaining().len(),
    {
        match self {
            TreeIterator::Singleton(_) => {},
            TreeIterator::InnerNode(inner) => {
                inner.lemma_size_hint_lower();
            },
        }
    }

    /// Create a new iterator that will visit all leaf nodes descended from
    /// the given node.
    pub fn new(root: &'a OpaqueNodePtr<V, PREFIX_LEN>) -> (iterator: Self)
        requires
            root.subtree_valid(),
        ensures
            iterator.wf(),
            iterator.remaining() == root.leaves(),
            root.subtree_populated() ==> iterator.populated(),
    {
        match &root.0 {
            ConcreteNodePtr::LeafNode(leaf_node_ptr) => TreeIterator::Singleton(
                Some(leaf_node_ptr.as_ref()),
            ),
            _ => TreeIterator::InnerNode(InnerNodeTreeIterator::new(root)),
        }
    }

    /// A lower and an upper bound of the number of leaves that are left.
    pub fn size_hint(&self) -> (hint: (usize, Option<usize>))
        requires
            self.wf(),
        ensures
            self matches TreeIterator::Singleton(leaf) ==> hint == (
                self.remaining().len() as usize,
                Some(self.remaining().len() as usize),
            ),
            self matches TreeIterator::InnerNode(inner) ==> hint == ((if cursors_lower(
                inner.node_iters@,
            ) <= usize::MAX {
                cursors_lower(inner.node_iters@) as usize
            } else {
                usize::MAX
            }), None::<usize>),
    {
        match self {
            TreeIterator::Singleton(leaf) => {
                if leaf.is_some() {
                    (1, Some(1))
                } else {
                    (0, Some(0))
                }
            },
            TreeIterator::InnerNode(inner) => inner.size_hint(),
        }
    }

    /// Hand out the leaf with the least key among those that are left.
    pub fn next(&mut self) -> (leaf: Option<&'a LeafNode<V, PREFIX_LEN>>)
        requires
            old(self).wf(),
        ensures
            final(self).wf(),
            leaf matches Some(l) ==> {
                &&& old(self).remaining().len() > 0
                &&& (l.key@, l.value) == old(self).remaining().first()
                &&& final(self).remaining() == old(self).remaining().drop_first()
            },
            leaf is None ==> {
                &&& old(self).remaining().len() == 0
                &&& final(self).remaining().len() == 0
            },
            old(self).populated() ==> final(self).populated(),
    {
        match self {
            TreeIterator::Singleton(inner) => {
                let leaf = inner.take();
                proof {
                    if leaf is Some {
                        assert(old(self).remaining().drop_first() =~= Seq::empty());
                    }
                }
                leaf
            },
            TreeIterator::InnerNode(inner) => inner.next(),
        }
    }

    /// Hand out the leaf with the greatest key among those that are left.
    pub fn next_back(&mut self) -> (leaf: Option<&'a LeafNode<V, PREFIX_LEN>>)
        requires
            old(self).wf(),
        ensures
            final(self).wf(),
            leaf matches Some(l) ==> {
                &&& old(self).remaining().len() > 0
                &&& (l.key@, l.value) == old(self).remaining().last()
                &&& final(self).remaining() == old(self).remaining().drop_last()
            },
            leaf is None ==> {
                &&& old(self).remaining().len() == 0
                &&& final(self).remaining().len() == 0
            },
            old(self).populated() ==> final(self).populated(),
    {
        match self {
            TreeIterator::Singleton(inner) => {
                let leaf = inner.take();
                proof {
                    if leaf is Some {
                        assert(old(self).remaining().drop_last() =~= Seq::empty());
                    }
                }
                leaf
            },
            TreeIterator::InnerNode(inner) => inner.next_back(),
        }
    }
}

} // verus!
