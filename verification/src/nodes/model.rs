//! The trie as a mathematical object.
//!
//! A tree is read as the sequence of its leaves in the order of the key
//! bytes along their paths, and, where no key occurs twice, as a map from
//! keys to values. Well-formedness ties the keys of the leaves to the paths
//! that lead to them.

use crate::bytes::{bytes_lt, differ_at, is_prefix_of};
use crate::nodes::counting::{count_in, lemma_count_same, lemma_count_witness};
use crate::nodes::representation::{ConcreteNodePtr, InnerNode, OpaqueNodePtr};
use vstd::prelude::*;

verus! {

/// The keys of the entries are strictly ascending in the order of byte
/// strings.
pub open spec fn entries_sorted<V>(entries: Seq<(Seq<u8>, V)>) -> bool {
    forall|i: int, j: int|
        0 <= i < j < entries.len() ==> bytes_lt(
            (#[trigger] entries[i]).0,
            (#[trigger] entries[j]).0,
        )
}

/// One of the entries has the given key.
pub open spec fn entries_contain<V>(entries: Seq<(Seq<u8>, V)>, key: Seq<u8>) -> bool {
    exists|i: int| 0 <= i < entries.len() && (#[trigger] entries[i]).0 == key
}

/// A position of an entry with the given key, if there is one.
pub open spec fn entries_index<V>(entries: Seq<(Seq<u8>, V)>, key: Seq<u8>) -> int {
    choose|i: int| 0 <= i < entries.len() && (#[trigger] entries[i]).0 == key
}

/// The map that takes the key of each entry to its value.
pub open spec fn entries_map<V>(entries: Seq<(Seq<u8>, V)>) -> Map<Seq<u8>, V> {
    Map::new(
        |key: Seq<u8>| entries_contain(entries, key),
        |key: Seq<u8>| entries[entries_index(entries, key)].1,
    )
}

/// In sorted entries a key has one position.
pub proof fn lemma_sorted_index<V>(entries: Seq<(Seq<u8>, V)>, i: int)
    requires
        entries_sorted(entries),
        0 <= i < entries.len(),
    ensures
        entries_contain(entries, entries[i].0),
        entries_index(entries, entries[i].0) == i,
        entries_map(entries).contains_key(entries[i].0),
        entries_map(entries)[entries[i].0] == entries[i].1,
{
    let j = entries_index(entries, entries[i].0);
    if i < j {
        assert(bytes_lt(entries[i].0, entries[j].0));
    }
    if j < i {
        assert(bytes_lt(entries[j].0, entries[i].0));
    }
}

impl<V, const PREFIX_LEN: usize> View for OpaqueNodePtr<V, PREFIX_LEN> {
    type V = Map<Seq<u8>, V>;

    /// The map that the tree below this node denotes: from the key of each
    /// leaf to its value.
    open spec fn view(&self) -> Map<Seq<u8>, V> {
        entries_map(self.leaves())
    }
}

impl<V, const PREFIX_LEN: usize> OpaqueNodePtr<V, PREFIX_LEN> {
    /// The keys and values of the leaves below this node, in the order of
    /// the key bytes along the paths to them.
    pub open spec fn leaves(self) -> Seq<(Seq<u8>, V)>
        decreases self, 257int,
    {
        match self.0 {
            ConcreteNodePtr::LeafNode(leaf) => seq![(leaf.0.key@, leaf.0.value)],
            _ => self.leaves_between(0, 256),
        }
    }

    /// The leaves below the children of this inner node that stand under
    /// the key bytes `lo..hi`, in order.
    pub open spec fn leaves_between(self, lo: int, hi: int) -> Seq<(Seq<u8>, V)>
        decreases self, hi - lo,
    {
        if lo < 0 || hi > 256 || lo >= hi {
            Seq::empty()
        } else {
            self.leaves_under(lo as u8) + self.leaves_between(lo + 1, hi)
        }
    }

    /// The leaves below the child under the given key byte; none where
    /// there is no such child.
    pub open spec fn leaves_under(self, key_fragment: u8) -> Seq<(Seq<u8>, V)>
        decreases self, 0int,
    {
        match self.child(key_fragment) {
            Some(child) => child.leaves(),
            None => Seq::empty(),
        }
    }

    /// The node is a leaf or an inner node that counts at least one child.
    pub open spec fn populated(self) -> bool {
        self.is_leaf() || self.spec_header().num_children > 0
    }

    /// The whole prefix of this inner node, where `depth` is the position
    /// in the keys at which it starts. A prefix that does not fit the
    /// inline buffer is read from the key of the first leaf below the node.
    pub open spec fn full_prefix(self, depth: int) -> Seq<u8> {
        let header = self.spec_header();
        if header.prefix_len <= PREFIX_LEN {
            header.inline_prefix()
        } else {
            self.leaves()[0].0.subrange(depth, depth + header.prefix_len)
        }
    }

    /// The subtree below this node is well-formed at the end of `path`,
    /// the key bytes that lead from the root to the node.
    ///
    /// The key of a leaf starts with its path. An inner node has a valid
    /// representation; a prefix that the inline buffer cannot hold starts with
    /// the inline bytes and can be read from the first leaf; and each child
    /// is populated and well-formed at the end of the path, the prefix and
    /// its own key byte.
    pub open spec fn well_formed(self, path: Seq<u8>) -> bool
        decreases self,
    {
        match self.0 {
            ConcreteNodePtr::LeafNode(leaf) => is_prefix_of(path, leaf.0.key@),
            _ => {
                let header = self.spec_header();
                let prefix = self.full_prefix(path.len() as int);
                &&& self.node_valid()
                &&& header.prefix_len > PREFIX_LEN ==> {
                    &&& header.num_children > 0
                    &&& path.len() + header.prefix_len <= self.leaves()[0].0.len()
                    &&& header.inline_prefix() == prefix.subrange(0, PREFIX_LEN as int)
                }
                &&& forall|b: u8|
                    #![trigger self.child(b)]
                    self.child(b) matches Some(c) ==> c.populated() && c.well_formed(
                        (path + prefix).push(b),
                    )
            },
        }
    }

    /// The header of a valid inner node counts the key bytes under which the
    /// node has a child.
    pub proof fn lemma_children_counted(self)
        requires
            !self.is_leaf(),
            self.node_valid(),
        ensures
            self.spec_header().num_children == count_in(|b: u8| self.child(b) is Some, 0, 256),
    {
        match self.0 {
            ConcreteNodePtr::Node4(n) => {
                n.0.lemma_num_children();
                lemma_count_same(
                    |b: u8| self.child(b) is Some,
                    |b: u8| n.0.spec_child(b) is Some,
                    0,
                    256,
                );
            },
            ConcreteNodePtr::Node16(n) => {
                n.0.lemma_num_children();
                lemma_count_same(
                    |b: u8| self.child(b) is Some,
                    |b: u8| n.0.spec_child(b) is Some,
                    0,
                    256,
                );
            },
            ConcreteNodePtr::Node48(n) => {
                n.0.lemma_num_children();
                lemma_count_same(
                    |b: u8| self.child(b) is Some,
                    |b: u8| n.0.spec_child(b) is Some,
                    0,
                    256,
                );
            },
            ConcreteNodePtr::Node256(n) => {
                n.0.lemma_num_children();
                lemma_count_same(
                    |b: u8| self.child(b) is Some,
                    |b: u8| n.0.spec_child(b) is Some,
                    0,
                    256,
                );
            },
            ConcreteNodePtr::LeafNode(_) => {},
        }
    }

    /// The leaves under a range of key bytes are those under its lower part
    /// followed by those under its upper part.
    pub proof fn lemma_between_split(self, lo: int, mid: int, hi: int)
        requires
            0 <= lo <= mid <= hi <= 256,
        ensures
            self.leaves_between(lo, hi) == self.leaves_between(lo, mid) + self.leaves_between(
                mid,
                hi,
            ),
        decreases mid - lo,
    {
        if lo < mid {
            self.lemma_between_split(lo + 1, mid, hi);
            assert(self.leaves_between(lo, hi) =~= self.leaves_under(lo as u8) + (
            self.leaves_between(lo + 1, mid) + self.leaves_between(mid, hi)));
            assert(self.leaves_between(lo, hi) =~= self.leaves_between(lo, mid)
                + self.leaves_between(mid, hi));
        } else {
            assert(self.leaves_between(lo, hi) =~= self.leaves_between(lo, mid)
                + self.leaves_between(mid, hi));
        }
    }

    /// The leaves under the key bytes `lo..hi` are those under the bytes
    /// before `b`, those under `b` and those under the bytes behind it.
    pub proof fn lemma_between_at(self, lo: int, b: u8, hi: int)
        requires
            0 <= lo <= b < hi <= 256,
        ensures
            self.leaves_between(lo, hi) == self.leaves_between(lo, b as int) + self.leaves_under(b)
                + self.leaves_between(b + 1, hi),
    {
        self.lemma_between_split(lo, b as int, hi);
        assert(self.leaves_between(b as int, hi) =~= self.leaves_under(b) + self.leaves_between(
            b + 1,
            hi,
        ));
        assert(self.leaves_between(lo, hi) =~= self.leaves_between(lo, b as int)
            + self.leaves_under(b) + self.leaves_between(b + 1, hi));
    }

    /// Find the key byte under which the leaf at position `i` of the leaves
    /// under `lo..hi` stands, and its position among the leaves under that
    /// byte.
    pub proof fn lemma_locate(self, lo: int, hi: int, i: int) -> (at: (u8, int))
        requires
            0 <= lo <= hi <= 256,
            0 <= i < self.leaves_between(lo, hi).len(),
        ensures
            lo <= at.0 < hi,
            0 <= at.1 < self.leaves_under(at.0).len(),
            i == self.leaves_between(lo, at.0 as int).len() + at.1,
            self.leaves_between(lo, hi)[i] == self.leaves_under(at.0)[at.1],
        decreases hi - lo,
    {
        let first = self.leaves_under(lo as u8);
        if i < first.len() {
            assert(self.leaves_between(lo, lo) =~= Seq::empty());
            (lo as u8, i)
        } else {
            let at = self.lemma_locate(lo + 1, hi, i - first.len());
            self.lemma_between_split(lo, lo + 1, at.0 as int);
            assert(self.leaves_between(lo, lo + 1) =~= first) by {
                assert(self.leaves_between(lo + 1, lo + 1) =~= Seq::empty());
            }
            at
        }
    }

    /// The keys of all leaves below a well-formed node start with the path
    /// of the node.
    pub proof fn lemma_leaves_extend_path(self, path: Seq<u8>)
        requires
            self.well_formed(path),
        ensures
            forall|i: int|
                0 <= i < self.leaves().len() ==> is_prefix_of(path, (#[trigger] self.leaves()[i]).0),
        decreases self, 1int,
    {
        if !self.is_leaf() {
            let prefix = self.full_prefix(path.len() as int);
            assert forall|i: int| 0 <= i < self.leaves().len() implies is_prefix_of(
                path,
                (#[trigger] self.leaves()[i]).0,
            ) by {
                let at = self.lemma_locate(0, 256, i);
                self.lemma_under_extends(path, at.0);
                let key = self.leaves_under(at.0)[at.1].0;
                let longer = (path + prefix).push(at.0);
                assert(is_prefix_of(longer, key));
                assert(key.subrange(0, path.len() as int) =~= longer.subrange(
                    0,
                    path.len() as int,
                ));
                assert(longer.subrange(0, path.len() as int) =~= path);
            }
        }
    }

    /// The keys of the leaves below a child of a well-formed inner node start
    /// with the path of the node, its prefix and the key byte of the child.
    pub proof fn lemma_under_extends(self, path: Seq<u8>, b: u8)
        requires
            !self.is_leaf(),
            self.well_formed(path),
        ensures
            forall|j: int|
                0 <= j < self.leaves_under(b).len() ==> is_prefix_of(
                    (path + self.full_prefix(path.len() as int)).push(b),
                    (#[trigger] self.leaves_under(b)[j]).0,
                ),
        decreases self, 0int,
    {
        match self.child(b) {
            Some(c) => {
                c.lemma_leaves_extend_path((path + self.full_prefix(path.len() as int)).push(b));
                assert(self.leaves_under(b) == c.leaves());
            },
            None => {
                assert(self.leaves_under(b).len() == 0);
            },
        }
    }

    /// A populated well-formed node has a leaf below it.
    pub proof fn lemma_has_leaf(self, path: Seq<u8>)
        requires
            self.well_formed(path),
            self.populated(),
        ensures
            self.leaves().len() > 0,
        decreases self,
    {
        if !self.is_leaf() {
            self.lemma_children_counted();
            let b = lemma_count_witness(|b: u8| self.child(b) is Some, 0, 256);
            let c = self.child(b).unwrap();
            c.lemma_has_leaf((path + self.full_prefix(path.len() as int)).push(b));
            self.lemma_between_at(0, b, 256);
        }
    }

    /// The whole prefix of a well-formed inner node has the length that the
    /// header tells.
    pub proof fn lemma_full_prefix_len(self, path: Seq<u8>)
        requires
            !self.is_leaf(),
            self.well_formed(path),
        ensures
            self.full_prefix(path.len() as int).len() == self.spec_header().prefix_len,
    {
    }

    /// What well-formedness says of an inner node and its children.
    pub proof fn lemma_well_formed_inner(self, path: Seq<u8>)
        requires
            !self.is_leaf(),
            self.well_formed(path),
        ensures
            self.node_valid(),
            self.spec_header().prefix_len > PREFIX_LEN ==> self.spec_header().num_children > 0,
            forall|b: u8|
                #![trigger self.child(b)]
                self.child(b) matches Some(c) ==> c.populated() && c.well_formed(
                    (path + self.full_prefix(path.len() as int)).push(b),
                ),
    {
    }

    /// What fitting the numbers of children says of an inner node and its
    /// children.
    pub proof fn lemma_fits_inner(self)
        requires
            !self.is_leaf(),
            self.fits(),
        ensures
            self.spec_node_type().accepts(self.spec_header().num_children as int),
            forall|b: u8| #![trigger self.child(b)] self.child(b) matches Some(c) ==> c.fits(),
    {
    }

    /// The header of a well-formed inner node holds the first bytes of the
    /// whole prefix inline.
    pub proof fn lemma_inline_prefix(self, path: Seq<u8>)
        requires
            !self.is_leaf(),
            self.well_formed(path),
        ensures
            self.spec_header().inline_prefix() == self.full_prefix(path.len() as int).subrange(
                0,
                self.spec_header().inline_len(),
            ),
    {
        let header = self.spec_header();
        let full = self.full_prefix(path.len() as int);
        if header.prefix_len > PREFIX_LEN {
            assert(full.subrange(0, header.inline_len()) =~= full.subrange(0, PREFIX_LEN as int));
        } else {
            assert(full.subrange(0, header.inline_len()) =~= full);
        }
    }

    /// The leaves below a well-formed node are strictly ascending by key.
    pub proof fn lemma_leaves_sorted(self, path: Seq<u8>)
        requires
            self.well_formed(path),
        ensures
            entries_sorted(self.leaves()),
        decreases self,
    {
        if !self.is_leaf() {
            let prefix = self.full_prefix(path.len() as int);
            let leaves = self.leaves();
            self.lemma_full_prefix_len(path);
            let depth = (path + prefix).len() as int;
            assert forall|i: int, j: int| 0 <= i < j < leaves.len() implies bytes_lt(
                (#[trigger] leaves[i]).0,
                (#[trigger] leaves[j]).0,
            ) by {
                let a = self.lemma_locate(0, 256, i);
                let b = self.lemma_locate(0, 256, j);
                if a.0 > b.0 {
                    self.lemma_between_split(0, b.0 + 1, a.0 as int);
                    self.lemma_between_at(0, b.0, b.0 + 1);
                    assert(self.leaves_between(b.0 + 1, b.0 + 1) =~= Seq::empty());
                } else if a.0 == b.0 {
                    let c = self.child(a.0).unwrap();
                    c.lemma_leaves_sorted((path + prefix).push(a.0));
                    assert(bytes_lt(c.leaves()[a.1].0, c.leaves()[b.1].0));
                } else {
                    self.lemma_under_extends(path, a.0);
                    self.lemma_under_extends(path, b.0);
                    let ka = self.leaves_under(a.0)[a.1].0;
                    let kb = self.leaves_under(b.0)[b.1].0;
                    let pa = (path + prefix).push(a.0);
                    let pb = (path + prefix).push(b.0);
                    assert(is_prefix_of(pa, ka));
                    assert(is_prefix_of(pb, kb));
                    assert(ka.subrange(0, depth) =~= pa.subrange(0, depth));
                    assert(kb.subrange(0, depth) =~= pb.subrange(0, depth));
                    assert(pa.subrange(0, depth) =~= pb.subrange(0, depth));
                    assert(ka[depth] == ka.subrange(0, pa.len() as int)[depth]);
                    assert(kb[depth] == kb.subrange(0, pb.len() as int)[depth]);
                    assert(differ_at(ka, kb, depth));
                }
            }
        } else {
            assert(self.leaves().len() == 1);
        }
    }

    /// What the map of a well-formed inner node holds under a key is what
    /// the map of one child holds: the child under the key byte that follows
    /// the path and the prefix of the node. Where the key is too short to
    /// have such a byte, or there is no such child, the map holds nothing
    /// under the key.
    pub proof fn lemma_lookup(self, path: Seq<u8>, key: Seq<u8>)
        requires
            !self.is_leaf(),
            self.well_formed(path),
        ensures
            ({
                let depth = path.len() + self.spec_header().prefix_len;
                let sub = if key.len() > depth {
                    self.child(key[depth])
                } else {
                    None
                };
                match sub {
                    Some(c) => self@.contains_key(key) == c@.contains_key(key) && (c@.contains_key(
                        key,
                    ) ==> self@[key] == c@[key]),
                    None => !self@.contains_key(key),
                }
            }),
            self@.contains_key(key) ==> is_prefix_of(
                path + self.full_prefix(path.len() as int),
                key,
            ),
    {
        let prefix = self.full_prefix(path.len() as int);
        let leaves = self.leaves();
        self.lemma_full_prefix_len(path);
        self.lemma_leaves_sorted(path);
        let depth = (path + prefix).len() as int;
        if entries_contain(leaves, key) {
            let i = entries_index(leaves, key);
            let at = self.lemma_locate(0, 256, i);
            self.lemma_under_extends(path, at.0);
            let longer = (path + prefix).push(at.0);
            assert(is_prefix_of(longer, self.leaves_under(at.0)[at.1].0));
            assert(key[depth] == key.subrange(0, longer.len() as int)[depth]);
            assert(key.subrange(0, depth) =~= longer.subrange(0, depth));
            assert(longer.subrange(0, depth) =~= path + prefix);
            let c = self.child(at.0).unwrap();
            c.lemma_leaves_sorted(longer);
            lemma_sorted_index(c.leaves(), at.1);
            lemma_sorted_index(leaves, i);
        }
        if key.len() > depth {
            let b = key[depth];
            match self.child(b) {
                Some(c) => {
                    if entries_contain(c.leaves(), key) {
                        let j = entries_index(c.leaves(), key);
                        self.lemma_between_at(0, b, 256);
                        let i = self.leaves_between(0, b as int).len() + j;
                        assert(leaves[i] == c.leaves()[j]);
                        c.lemma_leaves_sorted((path + prefix).push(b));
                        lemma_sorted_index(c.leaves(), j);
                        lemma_sorted_index(leaves, i);
                    }
                },
                None => {},
            }
        }
    }

    /// The map of a leaf holds the value of the leaf under its key and
    /// nothing else.
    pub proof fn lemma_leaf_map(self)
        requires
            self.is_leaf(),
        ensures
            self@ == Map::<Seq<u8>, V>::empty().insert(self.leaf().key@, self.leaf().value),
    {
        let leaves = self.leaves();
        assert(leaves[0].0 == self.leaf().key@);
        assert(entries_sorted(leaves));
        lemma_sorted_index(leaves, 0);
        assert(self@ =~= Map::<Seq<u8>, V>::empty().insert(self.leaf().key@, self.leaf().value));
    }

    /// Every inner node of the subtree has a number of children that its
    /// node type accepts in a tree at rest.
    pub open spec fn fits(self) -> bool
        decreases self,
    {
        self.is_leaf() || {
            &&& self.spec_node_type().accepts(self.spec_header().num_children as int)
            &&& forall|b: u8| #![trigger self.child(b)] self.child(b) matches Some(c) ==> c.fits()
        }
    }

    /// The invariant of a tree at rest, for the subtree below this node at
    /// the end of `path`: it is well-formed and the node types fit the
    /// numbers of children.
    pub open spec fn consistent(self, path: Seq<u8>) -> bool {
        self.well_formed(path) && self.fits()
    }

    /// Two inner nodes with the same children under the key bytes `lo..hi`
    /// have the same leaves there.
    pub proof fn lemma_same_children_between(self, other: Self, lo: int, hi: int)
        requires
            0 <= lo <= hi <= 256,
            forall|b: u8| lo <= b < hi ==> self.child(b) == other.child(b),
        ensures
            self.leaves_between(lo, hi) == other.leaves_between(lo, hi),
        decreases hi - lo,
    {
        if lo < hi {
            self.lemma_same_children_between(other, lo + 1, hi);
            assert(self.child(lo as u8) == other.child(lo as u8));
            assert(self.leaves_under(lo as u8) == other.leaves_under(lo as u8));
        }
    }

    /// Two inner nodes with the same children have the same leaves.
    pub proof fn lemma_same_children(self, other: Self)
        requires
            !self.is_leaf(),
            !other.is_leaf(),
            forall|b: u8| self.child(b) == other.child(b),
        ensures
            self.leaves() == other.leaves(),
    {
        self.lemma_same_children_between(other, 0, 256);
    }

    /// An inner node is well-formed at the end of `path`, with the whole
    /// prefix `prefix`, where its representation is valid, the header tells
    /// the length of `prefix` and holds its first bytes inline, and each
    /// child is populated and well-formed behind the path, the prefix and
    /// its key byte. A prefix that does not fit the inline buffer asks for a
    /// child.
    pub proof fn lemma_well_formed_from_children(self, path: Seq<u8>, prefix: Seq<u8>)
        requires
            !self.is_leaf(),
            self.node_valid(),
            prefix.len() == self.spec_header().prefix_len,
            self.spec_header().inline_prefix() == prefix.subrange(
                0,
                self.spec_header().inline_len(),
            ),
            self.spec_header().prefix_len > PREFIX_LEN ==> self.spec_header().num_children > 0,
            forall|b: u8|
                #![trigger self.child(b)]
                self.child(b) matches Some(c) ==> c.populated() && c.well_formed(
                    (path + prefix).push(b),
                ),
        ensures
            self.well_formed(path),
            self.full_prefix(path.len() as int) == prefix,
    {
        let header = self.spec_header();
        if header.prefix_len > PREFIX_LEN {
            self.lemma_children_counted();
            let b = lemma_count_witness(|b: u8| self.child(b) is Some, 0, 256);
            let c = self.child(b).unwrap();
            c.lemma_has_leaf((path + prefix).push(b));
            self.lemma_between_at(0, b, 256);
            let at = self.lemma_locate(0, 256, 0);
            let first = self.child(at.0).unwrap();
            let longer = (path + prefix).push(at.0);
            first.lemma_leaves_extend_path(longer);
            let key = self.leaves()[0].0;
            assert(key == first.leaves()[at.1].0);
            assert(is_prefix_of(longer, key));
            assert(key.subrange(path.len() as int, path.len() + header.prefix_len) =~= prefix) by {
                assert forall|i: int| 0 <= i < prefix.len() implies key[path.len() + i]
                    == prefix[i] by {
                    assert(key.subrange(0, longer.len() as int)[path.len() + i] == longer[path.len()
                        + i]);
                }
            }
            assert(prefix.subrange(0, header.inline_len()) =~= prefix.subrange(
                0,
                PREFIX_LEN as int,
            ));
        } else {
            assert(prefix.subrange(0, header.inline_len()) =~= prefix);
        }
    }

    /// The subtree below a child of a node that fits its numbers of children
    /// fits too.
    pub proof fn lemma_child_consistent(self, path: Seq<u8>, b: u8)
        requires
            !self.is_leaf(),
            self.consistent(path),
            self.child(b) is Some,
        ensures
            self.child(b).unwrap().consistent((path + self.full_prefix(path.len() as int)).push(b)),
            self.child(b).unwrap().populated(),
    {
    }

    /// The keys of the leaves have lengths that the machine can hold.
    pub proof fn lemma_leaf_keys_bounded(self)
        ensures
            forall|i: int|
                0 <= i < self.leaves().len() ==> (#[trigger] self.leaves()[i]).0.len()
                    <= usize::MAX,
        decreases self,
    {
        match self.0 {
            ConcreteNodePtr::LeafNode(leaf) => {
                assert(leaf.0.key.len() == leaf.0.key@.len());
            },
            _ => {
                assert forall|i: int| 0 <= i < self.leaves().len() implies (
                #[trigger] self.leaves()[i]).0.len() <= usize::MAX by {
                    let at = self.lemma_locate(0, 256, i);
                    let c = self.child(at.0).unwrap();
                    c.lemma_leaf_keys_bounded();
                    assert(self.leaves()[i] == c.leaves()[at.1]);
                }
            },
        }
    }

    /// Every node of the subtree has a valid representation.
    pub open spec fn subtree_valid(self) -> bool
        decreases self,
    {
        self.is_leaf() || {
            &&& self.node_valid()
            &&& forall|b: u8|
                #![trigger self.child(b)]
                self.child(b) matches Some(c) ==> c.subtree_valid()
        }
    }

    /// Every node of a well-formed subtree has a valid representation.
    pub proof fn lemma_subtree_valid(self, path: Seq<u8>)
        requires
            self.well_formed(path),
        ensures
            self.subtree_valid(),
        decreases self,
    {
        if !self.is_leaf() {
            assert forall|b: u8| #![trigger self.child(b)] self.child(b) is Some implies self.child(
                b,
            ).unwrap().subtree_valid() by {
                self.child(b).unwrap().lemma_subtree_valid(
                    (path + self.full_prefix(path.len() as int)).push(b),
                );
            }
        }
    }

    /// The number of nodes of the subtree.
    pub open spec fn node_count(self) -> nat
        decreases self, 257int,
    {
        if self.is_leaf() {
            1
        } else {
            1 + self.node_count_between(0, 256)
        }
    }

    /// The number of nodes below the children of this inner node that stand
    /// under the key bytes `lo..hi`, the children included.
    pub open spec fn node_count_between(self, lo: int, hi: int) -> nat
        decreases self, hi - lo,
    {
        if lo < 0 || hi > 256 || lo >= hi {
            0
        } else {
            self.node_count_under(lo as u8) + self.node_count_between(lo + 1, hi)
        }
    }

    /// The number of nodes of the subtree below the child under the given
    /// key byte; none where there is no such child.
    pub open spec fn node_count_under(self, key_fragment: u8) -> nat
        decreases self, 0int,
    {
        match self.child(key_fragment) {
            Some(child) => child.node_count(),
            None => 0,
        }
    }

    /// Where the only child of an inner node in a range of key bytes stands
    /// under `b`, the range holds the leaves and the nodes of that child and
    /// those of the rest of the range behind the key bytes without children
    /// that follow `b`.
    pub proof fn lemma_window_front(self, lo: int, b: u8, next: int, hi: int)
        requires
            0 <= lo <= b < hi <= 256,
            b < next <= 256,
            self.child(b) is Some,
            forall|x: u8| lo <= x < b ==> self.child(x) is None,
            forall|x: u8| b < x < next ==> self.child(x) is None,
        ensures
            self.leaves_between(lo, hi) == self.child(b).unwrap().leaves() + self.leaves_between(
                next,
                hi,
            ),
            self.node_count_between(lo, hi) == self.child(b).unwrap().node_count()
                + self.node_count_between(next, hi),
    {
        self.lemma_between_at(lo, b, hi);
        self.lemma_between_empty(lo, b as int);
        self.lemma_count_between_split(lo, b as int, hi);
        self.lemma_count_between_empty(lo, b as int);
        assert(self.node_count_between(b as int, hi) == self.node_count_under(b)
            + self.node_count_between(b + 1, hi));
        assert(self.node_count_under(b) == self.child(b).unwrap().node_count());
        assert(self.leaves_under(b) == self.child(b).unwrap().leaves());
        if next <= hi {
            self.lemma_between_split(b + 1, next, hi);
            self.lemma_between_empty(b + 1, next);
            self.lemma_count_between_split(b + 1, next, hi);
            self.lemma_count_between_empty(b + 1, next);
            assert(self.leaves_between(b + 1, hi) =~= self.leaves_between(next, hi));
        } else {
            self.lemma_between_empty(b + 1, hi);
            self.lemma_count_between_empty(b + 1, hi);
            assert(self.leaves_between(next, hi) =~= Seq::empty());
        }
        assert(self.leaves_between(lo, hi) =~= self.child(b).unwrap().leaves()
            + self.leaves_between(next, hi));
    }

    /// Where the only child of an inner node in a range of key bytes stands
    /// under `b`, the range holds the leaves and the nodes of the part of
    /// the range before the key bytes without children that precede `b`, and
    /// those of that child.
    pub proof fn lemma_window_back(self, lo: int, next: int, b: u8, hi: int)
        requires
            0 <= lo <= b < hi <= 256,
            0 <= next <= b,
            self.child(b) is Some,
            forall|x: u8| b < x < hi ==> self.child(x) is None,
            forall|x: u8| next <= x < b ==> self.child(x) is None,
        ensures
            self.leaves_between(lo, hi) == self.leaves_between(lo, next) + self.child(
                b,
            ).unwrap().leaves(),
            self.node_count_between(lo, hi) == self.node_count_between(lo, next) + self.child(
                b,
            ).unwrap().node_count(),
    {
        self.lemma_between_at(lo, b, hi);
        self.lemma_between_empty(b + 1, hi);
        self.lemma_count_between_split(lo, b as int, hi);
        self.lemma_count_between_empty(b + 1, hi);
        assert(self.node_count_between(b as int, hi) == self.node_count_under(b)
            + self.node_count_between(b + 1, hi));
        if lo <= next {
            self.lemma_between_split(lo, next, b as int);
            self.lemma_between_empty(next, b as int);
            self.lemma_count_between_split(lo, next, b as int);
            self.lemma_count_between_empty(next, b as int);
            assert(self.leaves_between(lo, b as int) =~= self.leaves_between(lo, next));
        } else {
            self.lemma_between_empty(lo, b as int);
            self.lemma_count_between_empty(lo, b as int);
            assert(self.leaves_between(lo, next) =~= Seq::empty());
        }
        assert(self.leaves_under(b) == self.child(b).unwrap().leaves());
        assert(self.node_count_under(b) == self.child(b).unwrap().node_count());
        assert(self.leaves_between(lo, hi) =~= self.leaves_between(lo, next) + self.child(
            b,
        ).unwrap().leaves());
    }

    /// The nodes under a range of key bytes are those under its lower part
    /// and those under its upper part.
    pub proof fn lemma_count_between_split(self, lo: int, mid: int, hi: int)
        requires
            0 <= lo <= mid <= hi <= 256,
        ensures
            self.node_count_between(lo, hi) == self.node_count_between(lo, mid)
                + self.node_count_between(mid, hi),
        decreases mid - lo,
    {
        if lo < mid {
            self.lemma_count_between_split(lo + 1, mid, hi);
        }
    }

    /// Where an inner node has no children under the key bytes `lo..hi`,
    /// there are no nodes under them.
    pub proof fn lemma_count_between_empty(self, lo: int, hi: int)
        requires
            0 <= lo <= hi <= 256,
            forall|b: u8| lo <= b < hi ==> self.child(b) is None,
        ensures
            self.node_count_between(lo, hi) == 0,
        decreases hi - lo,
    {
        if lo < hi {
            self.lemma_count_between_empty(lo + 1, hi);
            assert(self.child(lo as u8) is None);
            assert(self.node_count_under(lo as u8) == 0);
        }
    }

    /// Where an inner node has no children under the key bytes `lo..hi`,
    /// there are no leaves under them.
    pub proof fn lemma_between_empty(self, lo: int, hi: int)
        requires
            0 <= lo <= hi <= 256,
            forall|b: u8| lo <= b < hi ==> self.child(b) is None,
        ensures
            self.leaves_between(lo, hi) == Seq::<(Seq<u8>, V)>::empty(),
        decreases hi - lo,
    {
        if lo < hi {
            self.lemma_between_empty(lo + 1, hi);
            assert(self.child(lo as u8) is None);
            assert(self.leaves_under(lo as u8) =~= Seq::<(Seq<u8>, V)>::empty());
            assert(self.leaves_between(lo, hi) =~= Seq::<(Seq<u8>, V)>::empty());
        }
    }

    /// Every inner node of the subtree has a valid representation and a
    /// child.
    pub open spec fn subtree_populated(self) -> bool
        decreases self,
    {
        self.is_leaf() || {
            &&& self.node_valid()
            &&& self.spec_header().num_children > 0
            &&& forall|b: u8|
                #![trigger self.child(b)]
                self.child(b) matches Some(c) ==> c.subtree_populated()
        }
    }

    /// Every inner node of a populated well-formed subtree has a child.
    pub proof fn lemma_subtree_populated(self, path: Seq<u8>)
        requires
            self.well_formed(path),
            self.populated(),
        ensures
            self.subtree_populated(),
        decreases self,
    {
        if !self.is_leaf() {
            assert forall|b: u8| #![trigger self.child(b)] self.child(b) is Some implies self.child(
                b,
            ).unwrap().subtree_populated() by {
                self.child(b).unwrap().lemma_subtree_populated(
                    (path + self.full_prefix(path.len() as int)).push(b),
                );
            }
        }
    }

    /// A subtree in which every inner node has a child holds a leaf.
    pub proof fn lemma_populated_has_leaf(self)
        requires
            self.subtree_populated(),
        ensures
            self.leaves().len() > 0,
        decreases self,
    {
        if !self.is_leaf() {
            self.lemma_children_counted();
            let b = lemma_count_witness(|b: u8| self.child(b) is Some, 0, 256);
            self.child(b).unwrap().lemma_populated_has_leaf();
            self.lemma_between_at(0, b, 256);
        }
    }

    /// Where every inner node of the subtree has a child, there are as many
    /// leaves under a range of key bytes as there are children at least.
    pub proof fn lemma_leaves_per_child(self, lo: int, hi: int)
        requires
            !self.is_leaf(),
            self.subtree_populated(),
            0 <= lo <= hi <= 256,
        ensures
            count_in(|b: u8| self.child(b) is Some, lo, hi) <= self.leaves_between(lo, hi).len(),
        decreases hi - lo,
    {
        if lo < hi {
            self.lemma_leaves_per_child(lo + 1, hi);
            match self.child(lo as u8) {
                Some(child) => {
                    child.lemma_populated_has_leaf();
                    assert(self.leaves_under(lo as u8) == child.leaves());
                },
                None => {},
            }
        }
    }
}

} // verus!
