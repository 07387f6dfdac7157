//! Counting the key bytes that satisfy a predicate.
//!
//! The headers of inner nodes count children. The lemmas here connect such a
//! count with the predicate "there is a child under this key byte".

use vstd::prelude::*;

verus! {

/// Number of key bytes in `lo..hi` for which `occupied` holds.
pub open spec fn count_in(occupied: spec_fn(u8) -> bool, lo: int, hi: int) -> nat
    decreases hi - lo,
{
    if lo >= hi {
        0
    } else {
        (if occupied(lo as u8) {
            1nat
        } else {
            0nat
        }) + count_in(occupied, lo + 1, hi)
    }
}

/// Where nothing is occupied the count is zero.
pub proof fn lemma_count_none(occupied: spec_fn(u8) -> bool, lo: int, hi: int)
    requires
        0 <= lo,
        hi <= 256,
        forall|b: u8| lo <= b < hi ==> !#[trigger] occupied(b),
    ensures
        count_in(occupied, lo, hi) == 0,
    decreases hi - lo,
{
    if lo < hi {
        lemma_count_none(occupied, lo + 1, hi);
    }
}

/// Two predicates that agree on a range have the same count there.
pub proof fn lemma_count_same(p: spec_fn(u8) -> bool, q: spec_fn(u8) -> bool, lo: int, hi: int)
    requires
        0 <= lo,
        hi <= 256,
        forall|b: u8| lo <= b < hi ==> #[trigger] p(b) == #[trigger] q(b),
    ensures
        count_in(p, lo, hi) == count_in(q, lo, hi),
    decreases hi - lo,
{
    if lo < hi {
        lemma_count_same(p, q, lo + 1, hi);
    }
}

/// A count over a range is the sum of the counts over its two parts.
pub proof fn lemma_count_split(p: spec_fn(u8) -> bool, lo: int, mid: int, hi: int)
    requires
        lo <= mid <= hi,
    ensures
        count_in(p, lo, hi) == count_in(p, lo, mid) + count_in(p, mid, hi),
    decreases mid - lo,
{
    if lo < mid {
        lemma_count_split(p, lo + 1, mid, hi);
    }
}

/// A count is at most the size of the range.
pub proof fn lemma_count_bound(p: spec_fn(u8) -> bool, lo: int, hi: int)
    requires
        lo <= hi,
    ensures
        count_in(p, lo, hi) <= hi - lo,
    decreases hi - lo,
{
    if lo < hi {
        lemma_count_bound(p, lo + 1, hi);
    }
}

/// Two predicates that differ at the key byte `k` alone, where only `q`
/// holds, have counts that differ by one.
pub proof fn lemma_count_add(p: spec_fn(u8) -> bool, q: spec_fn(u8) -> bool, k: u8)
    requires
        !p(k),
        q(k),
        forall|b: u8| b != k ==> #[trigger] p(b) == #[trigger] q(b),
    ensures
        count_in(q, 0, 256) == count_in(p, 0, 256) + 1,
{
    lemma_count_split(p, 0, k as int, 256);
    lemma_count_split(q, 0, k as int, 256);
    lemma_count_same(p, q, 0, k as int);
    lemma_count_same(p, q, k + 1, 256);
    assert(count_in(p, k as int, 256) == count_in(p, k + 1, 256));
    assert(count_in(q, k as int, 256) == 1 + count_in(q, k + 1, 256));
}

/// A positive count has a witness.
pub proof fn lemma_count_witness(p: spec_fn(u8) -> bool, lo: int, hi: int) -> (k: u8)
    requires
        0 <= lo,
        hi <= 256,
        count_in(p, lo, hi) > 0,
    ensures
        lo <= k < hi,
        p(k),
    decreases hi - lo,
{
    if p(lo as u8) {
        lo as u8
    } else {
        lemma_count_witness(p, lo + 1, hi)
    }
}

/// Two distinct witnesses make the count at least two.
pub proof fn lemma_count_two(p: spec_fn(u8) -> bool, j: u8, k: u8)
    requires
        j != k,
        p(j),
        p(k),
    ensures
        count_in(p, 0, 256) >= 2,
{
    let a = if j < k { j } else { k };
    let b = if j < k { k } else { j };
    lemma_count_split(p, 0, a as int, 256);
    lemma_count_split(p, a + 1, b as int, 256);
    assert(count_in(p, a as int, 256) == 1 + count_in(p, a + 1, 256));
    assert(count_in(p, b as int, 256) == 1 + count_in(p, b + 1, 256));
}

/// Where a key byte is not occupied the count stays below the number of
/// key bytes.
pub proof fn lemma_count_not_full(p: spec_fn(u8) -> bool, k: u8)
    requires
        !p(k),
    ensures
        count_in(p, 0, 256) <= 255,
{
    lemma_count_split(p, 0, k as int, 256);
    lemma_count_bound(p, 0, k as int);
    lemma_count_bound(p, k + 1, 256);
    assert(count_in(p, k as int, 256) == count_in(p, k + 1, 256));
}

/// Where the count is one no key byte but the witness is occupied.
pub proof fn lemma_count_one(p: spec_fn(u8) -> bool, k: u8)
    requires
        p(k),
        count_in(p, 0, 256) == 1,
    ensures
        forall|b: u8| b != k ==> !#[trigger] p(b),
{
    assert forall|b: u8| b != k implies !#[trigger] p(b) by {
        if p(b) {
            lemma_count_two(p, b, k);
        }
    }
}

/// A count of two or more has two witnesses.
pub proof fn lemma_count_two_witnesses(p: spec_fn(u8) -> bool, lo: int, hi: int) -> (pair: (
    u8,
    u8,
))
    requires
        0 <= lo,
        hi <= 256,
        count_in(p, lo, hi) >= 2,
    ensures
        lo <= pair.0 < pair.1 < hi,
        p(pair.0),
        p(pair.1),
    decreases hi - lo,
{
    if p(lo as u8) {
        let k = lemma_count_witness(p, lo + 1, hi);
        (lo as u8, k)
    } else {
        lemma_count_two_witnesses(p, lo + 1, hi)
    }
}

} // verus!
