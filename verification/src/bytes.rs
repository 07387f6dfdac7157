//! Byte strings: the keys of the trie, compared byte by byte.

use vstd::prelude::*;

verus! {

/// `a` is a prefix of `b`, possibly all of it.
pub open spec fn is_prefix_of(a: Seq<u8>, b: Seq<u8>) -> bool {
    a.len() <= b.len() && b.subrange(0, a.len() as int) == a
}

/// `a` comes before `b` in the lexicographic order of byte strings: at the
/// first position where they differ `a` has the smaller byte, or `a` ends
/// there and `b` does not.
pub open spec fn bytes_lt(a: Seq<u8>, b: Seq<u8>) -> bool {
    exists|i: int| #[trigger] differ_at(a, b, i)
}

/// `a` and `b` agree before position `i`, and there `a` has the smaller byte
/// or ends while `b` goes on.
pub open spec fn differ_at(a: Seq<u8>, b: Seq<u8>, i: int) -> bool {
    &&& 0 <= i <= a.len()
    &&& i < b.len()
    &&& a.subrange(0, i) == b.subrange(0, i)
    &&& i < a.len() ==> a[i] < b[i]
}

/// Number of leading positions at which `a` and `b` hold the same byte.
pub open spec fn common_prefix_len(a: Seq<u8>, b: Seq<u8>) -> nat
    decreases a.len(),
{
    if a.len() == 0 || b.len() == 0 || a[0] != b[0] {
        0
    } else {
        1 + common_prefix_len(a.skip(1), b.skip(1))
    }
}

/// The common prefix length is the first position at which the strings
/// differ or one of them ends.
pub proof fn lemma_common_prefix_len(a: Seq<u8>, b: Seq<u8>)
    ensures
        common_prefix_len(a, b) <= a.len(),
        common_prefix_len(a, b) <= b.len(),
        forall|i: int| 0 <= i < common_prefix_len(a, b) ==> a[i] == b[i],
        common_prefix_len(a, b) < a.len() && common_prefix_len(a, b) < b.len() ==> a[common_prefix_len(
            a,
            b,
        ) as int] != b[common_prefix_len(a, b) as int],
    decreases a.len(),
{
    if a.len() == 0 || b.len() == 0 || a[0] != b[0] {
    } else {
        lemma_common_prefix_len(a.skip(1), b.skip(1));
        let n = common_prefix_len(a.skip(1), b.skip(1));
        assert forall|i: int| 0 <= i < n + 1 implies a[i] == b[i] by {
            if i > 0 {
                assert(a.skip(1)[i - 1] == b.skip(1)[i - 1]);
            }
        }
        if n + 1 < a.len() && n + 1 < b.len() {
            assert(a.skip(1)[n as int] != b.skip(1)[n as int]);
        }
    }
}

/// A count of agreeing leading positions that stops at a difference or at
/// the end of a string is the common prefix length.
pub proof fn lemma_common_prefix_len_is(a: Seq<u8>, b: Seq<u8>, n: int)
    requires
        0 <= n <= a.len(),
        n <= b.len(),
        forall|i: int| 0 <= i < n ==> a[i] == b[i],
        n < a.len() && n < b.len() ==> a[n] != b[n],
    ensures
        common_prefix_len(a, b) == n,
{
    lemma_common_prefix_len(a, b);
    let m = common_prefix_len(a, b) as int;
    if m < n {
        assert(a[m] == b[m]);
    }
    if n < m {
        assert(a[n] == b[n]);
    }
}

/// No byte string comes before itself.
pub proof fn lemma_bytes_lt_irreflexive(a: Seq<u8>)
    ensures
        !bytes_lt(a, a),
{
}

/// The order of byte strings is transitive.
pub proof fn lemma_bytes_lt_transitive(a: Seq<u8>, b: Seq<u8>, c: Seq<u8>)
    requires
        bytes_lt(a, b),
        bytes_lt(b, c),
    ensures
        bytes_lt(a, c),
{
    let i = choose|i: int| #[trigger] differ_at(a, b, i);
    let j = choose|j: int| #[trigger] differ_at(b, c, j);
    let k = if i <= j { i } else { j };
    assert(a.subrange(0, k) == c.subrange(0, k)) by {
        assert(a.subrange(0, k) =~= a.subrange(0, i).subrange(0, k));
        assert(b.subrange(0, k) =~= b.subrange(0, i).subrange(0, k));
        assert(b.subrange(0, k) =~= b.subrange(0, j).subrange(0, k));
        assert(c.subrange(0, k) =~= c.subrange(0, j).subrange(0, k));
    }
    if i < j {
        assert(b.subrange(0, j)[i] == c.subrange(0, j)[i]);
    }
    if j < i {
        assert(a.subrange(0, i)[j] == b.subrange(0, i)[j]);
    }
    assert(differ_at(a, c, k));
}

/// Of two byte strings that are not equal one comes before the other.
pub proof fn lemma_bytes_lt_total(a: Seq<u8>, b: Seq<u8>)
    ensures
        a == b || bytes_lt(a, b) || bytes_lt(b, a),
{
    lemma_common_prefix_len(a, b);
    let n = common_prefix_len(a, b) as int;
    assert(a.subrange(0, n) =~= b.subrange(0, n));
    if n == a.len() && n == b.len() {
        assert(a =~= b);
    } else if n == a.len() {
        assert(differ_at(a, b, n));
    } else if n == b.len() {
        assert(differ_at(b, a, n));
    } else if a[n] < b[n] {
        assert(differ_at(a, b, n));
    } else {
        assert(differ_at(b, a, n));
    }
}

/// Of two byte strings at most one comes before the other.
pub proof fn lemma_bytes_lt_asymmetric(a: Seq<u8>, b: Seq<u8>)
    requires
        bytes_lt(a, b),
    ensures
        !bytes_lt(b, a),
{
    if bytes_lt(b, a) {
        lemma_bytes_lt_transitive(a, b, a);
    }
}

/// Compare two byte strings for equality.
pub fn bytes_eq(a: &[u8], b: &[u8]) -> (equal: bool)
    ensures
        equal == (a@ == b@),
{
    if a.len() != b.len() {
        return false;
    }
    let len: usize = a.len();
    let mut i: usize = 0;
    while i < len
        invariant
            i <= len,
            len == a@.len(),
            len == b@.len(),
            forall|j: int| 0 <= j < i ==> a@[j] == b@[j],
        decreases len - i,
    {
        if a[i] != b[i] {
            return false;
        }
        i += 1;
    }
    assert(a@ =~= b@);
    true
}

/// Count the leading positions at which `a` and `b` hold the same byte.
pub fn common_prefix(a: &[u8], b: &[u8]) -> (len: usize)
    ensures
        len == common_prefix_len(a@, b@),
{
    let a_len: usize = a.len();
    let b_len: usize = b.len();
    let mut i: usize = 0;
    while i < a_len && i < b_len && a[i] == b[i]
        invariant
            i <= a_len,
            i <= b_len,
            a_len == a@.len(),
            b_len == b@.len(),
            forall|j: int| 0 <= j < i ==> a@[j] == b@[j],
        decreases a_len - i,
    {
        i += 1;
    }
    proof {
        lemma_common_prefix_len_is(a@, b@, i as int);
    }
    i
}

} // verus!
