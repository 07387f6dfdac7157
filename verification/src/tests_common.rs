//! Helper functions for generating keys to fill a tree with.

use crate::bytes::is_prefix_of;
use crate::nodes::operations::insert::{
    conflicts, insert, prefix_conflict, tree_consistent, tree_map,
};
use crate::nodes::representation::{into_slots, OpaqueNodePtr};
use crate::nodes::theorems::among_first;
use vstd::prelude::*;

verus! {

/// The key at position `i` of the skewed keys: `i` zero bytes followed by
/// one byte of all ones.
pub open spec fn skewed_key(i: int) -> Seq<u8> {
    Seq::new(
        (i + 1) as nat,
        |j: int|
            if j == i {
                255u8
            } else {
                0u8
            },
    )
}

/// Generate bytestring keys, with increasing length up to a maximum value.
///
/// This function will produce `max_len` number of keys. Each key has the form
/// `[0*, u8::MAX]`, meaning zero or more 0 values, followed by a single
/// `u8::MAX` value. The final `u8::MAX` value is added to ensure that no key is
/// a prefix of another key generated by this function.
///
/// `max_len` must not be 0.
pub fn generate_keys_skewed(max_len: usize) -> (keys: Vec<Vec<u8>>)
    requires
        max_len > 0,
    ensures
        keys@.len() == max_len,
        forall|i: int| 0 <= i < max_len ==> (#[trigger] keys@[i])@ == skewed_key(i),
{
    let mut keys: Vec<Vec<u8>> = Vec::new();
    let mut len: usize = 0;
    while len < max_len
        invariant
            len <= max_len,
            keys@.len() == len,
            forall|i: int| 0 <= i < len ==> (#[trigger] keys@[i])@ == skewed_key(i),
        decreases max_len - len,
    {
        let mut key: Vec<u8> = Vec::new();
        let mut j: usize = 0;
        while j < len
            invariant
                j <= len,
                key@.len() == j,
                forall|k: int| 0 <= k < j ==> key@[k] == 0u8,
            decreases len - j,
        {
            key.push(0);
            j += 1;
        }
        key.push(255);
        assert(key@ =~= skewed_key(len as int));
        keys.push(key);
        len += 1;
    }
    keys
}

/// The quotient of `lhs` by `rhs`, rounded up.
pub open spec fn spec_div_ceil(lhs: u8, rhs: u8) -> u8 {
    if lhs % rhs > 0 {
        (lhs / rhs + 1) as u8
    } else {
        lhs / rhs
    }
}

/// The quotient of `lhs` by `rhs`, rounded up.
pub fn div_ceil(lhs: u8, rhs: u8) -> (quotient: u8)
    requires
        rhs > 0,
    ensures
        quotient == spec_div_ceil(lhs, rhs),
        lhs > 0 ==> quotient >= 1,
{
    let d: u8 = lhs / rhs;
    let r: u8 = lhs % rhs;
    if r > 0 {
        assert(d < 255) by (nonlinear_arith)
            requires
                d == lhs / rhs,
                rhs > 0,
                lhs % rhs > 0,
                lhs <= 255,
        {
            if rhs == 1 {
                assert(lhs % rhs == 0);
            }
            assert(lhs / rhs <= lhs / 2) by {
                assert(rhs >= 2);
            }
        }
        d + 1
    } else {
        assert(d >= 1 || lhs == 0) by (nonlinear_arith)
            requires
                d == lhs / rhs,
                lhs % rhs == 0,
                rhs > 0,
        {
            assert(lhs == rhs * (lhs / rhs) + lhs % rhs);
        }
        d
    }
}

/// The steps by which the digits of the keys of fixed length go up: for each
/// digit the quotient of 255 by the width of its level, rounded up.
pub open spec fn increments_of(level_widths: Seq<u8>) -> Seq<u8> {
    Seq::new(level_widths.len(), |i: int| spec_div_ceil(255, level_widths[i]))
}

/// All digits of the key have the highest value.
pub open spec fn all_max(key: Seq<u8>) -> bool {
    forall|i: int| 0 <= i < key.len() ==> key[i] == 255u8
}

/// The key that follows `key`: its last digit that does not have the highest
/// value goes up by its increment, up to the highest value at most, and the
/// digits behind it start again at zero.
pub open spec fn next_key(key: Seq<u8>, increments: Seq<u8>) -> Seq<u8>
    decreases key.len(),
{
    if key.len() == 0 {
        key
    } else if key.last() == 255 {
        next_key(key.drop_last(), increments.drop_last()).push(0)
    } else {
        key.drop_last().push(
            if key.last() + increments.last() > 255 {
                255u8
            } else {
                (key.last() + increments.last()) as u8
            },
        )
    }
}

/// The number that the digits of the key denote to the base 256.
pub open spec fn key_value(key: Seq<u8>) -> nat
    decreases key.len(),
{
    if key.len() == 0 {
        0
    } else {
        key_value(key.drop_last()) * 256 + key.last() as nat
    }
}

/// The number of keys with the given number of digits.
pub open spec fn pow256(digits: nat) -> nat
    decreases digits,
{
    if digits == 0 {
        1
    } else {
        256 * pow256((digits - 1) as nat)
    }
}

/// The number that a key denotes is below the number of keys of its length.
pub proof fn lemma_key_value_bound(key: Seq<u8>)
    ensures
        key_value(key) < pow256(key.len()),
    decreases key.len(),
{
    if key.len() > 0 {
        lemma_key_value_bound(key.drop_last());
    }
}

/// The key that follows a key whose digits do not all have the highest value
/// has as many digits and denotes a greater number.
pub proof fn lemma_next_key_greater(key: Seq<u8>, increments: Seq<u8>)
    requires
        key.len() == increments.len(),
        !all_max(key),
        forall|i: int| 0 <= i < increments.len() ==> increments[i] >= 1,
    ensures
        next_key(key, increments).len() == key.len(),
        key_value(next_key(key, increments)) > key_value(key),
    decreases key.len(),
{
    if key.len() > 0 {
        if key.last() == 255 {
            let head = key.drop_last();
            assert(!all_max(head)) by {
                if all_max(head) {
                    assert forall|i: int| 0 <= i < key.len() implies key[i] == 255u8 by {
                        if i < key.len() - 1 {
                            assert(head[i] == 255u8);
                        }
                    }
                }
            }
            assert forall|i: int| 0 <= i < increments.drop_last().len() implies increments.drop_last()[i]
                >= 1 by {
                assert(increments.drop_last()[i] == increments[i]);
            }
            lemma_next_key_greater(head, increments.drop_last());
            let following = next_key(key, increments);
            assert(following.drop_last() =~= next_key(head, increments.drop_last()));
        } else {
            let following = next_key(key, increments);
            assert(following.drop_last() =~= key.drop_last());
        }
    }
}

/// The keys are all the keys of a fixed length whose digits go up by the
/// increments of the given level widths, in ascending order: the first has
/// zero digits only, each is followed by the next key, and the last is the
/// only one whose digits all have the highest value.
pub open spec fn fixed_length_keys(keys: Seq<Seq<u8>>, level_widths: Seq<u8>) -> bool {
    &&& keys.len() > 0
    &&& keys[0] == Seq::new(level_widths.len(), |i: int| 0u8)
    &&& all_max(keys.last())
    &&& forall|i: int|
        0 <= i < keys.len() - 1 ==> !all_max(#[trigger] keys[i]) && keys[i + 1] == next_key(
            keys[i],
            increments_of(level_widths),
        )
}

/// Replace the key by the key that follows it.
pub fn advance_key<const KEY_LENGTH: usize>(key: &mut Vec<u8>, increments: &[u8; KEY_LENGTH])
    requires
        old(key)@.len() == KEY_LENGTH,
        !all_max(old(key)@),
    ensures
        final(key)@ == next_key(old(key)@, increments@),
{
    let ghost before = key@;
    let ghost steps = increments@;
    let mut idx: usize = key.len();
    let mut done: bool = false;
    while !done
        invariant
            idx <= KEY_LENGTH,
            key@.len() == KEY_LENGTH,
            before.len() == KEY_LENGTH,
            steps == increments@,
            steps.len() == KEY_LENGTH,
            !all_max(before),
            !done ==> forall|j: int|
                #![trigger before[j]]
                #![trigger key@[j]]
                idx <= j < KEY_LENGTH ==> before[j] == 255u8 && key@[j] == 0u8,
            !done ==> forall|j: int| #![trigger key@[j]] 0 <= j < idx ==> key@[j] == before[j],
            done ==> key@ == next_key(before, steps),
        decreases idx + (if done { 0int } else { 1int }),
    {
        if idx == 0 {
            proof {
                assert(all_max(before));
            }
            done = true;
        } else {
            idx -= 1;
            assert(key@[idx as int] == before[idx as int]);
            if key[idx] == 255 {
                let ghost earlier = key@;
                key[idx] = 0;
                assert forall|j: int| idx <= j < KEY_LENGTH implies before[j] == 255u8 && key@[j]
                    == 0u8 by {
                    if j > idx {
                        assert(earlier[j] == 0u8);
                        assert(key@[j] == earlier[j]);
                    }
                }
                assert forall|j: int| 0 <= j < idx implies key@[j] == before[j] by {
                    assert(key@[j] == earlier[j]);
                }
            } else {
                let digit: u8 = key[idx];
                let step: u8 = increments[idx];
                let ghost earlier = key@;
                key[idx] = if 255 - digit < step {
                    255
                } else {
                    digit + step
                };
                proof {
                    lemma_next_key_suffix(before, steps, idx as int);
                    let head = before.subrange(0, idx + 1);
                    let head_steps = steps.subrange(0, idx + 1);
                    assert(head.drop_last() =~= before.subrange(0, idx as int));
                    assert(head.last() == digit);
                    assert(head_steps.last() == step);
                    assert(next_key(head, head_steps) =~= before.subrange(0, idx as int).push(
                        key@[idx as int],
                    ));
                    let tail = Seq::new((KEY_LENGTH - idx - 1) as nat, |j: int| 0u8);
                    assert forall|j: int| 0 <= j < KEY_LENGTH implies key@[j] == (next_key(
                        head,
                        head_steps,
                    ) + tail)[j] by {
                        if j != idx {
                            assert(key@[j] == earlier[j]);
                        }
                    }
                    assert(key@ =~= next_key(head, head_steps) + tail);
                }
                done = true;
            }
        }
    }
}

/// The key that follows a key whose digits behind position `idx` all have
/// the highest value is the key that follows the digits up to that position,
/// followed by zero digits.
pub proof fn lemma_next_key_suffix(key: Seq<u8>, increments: Seq<u8>, idx: int)
    requires
        key.len() == increments.len(),
        0 <= idx < key.len(),
        forall|j: int| idx < j < key.len() ==> key[j] == 255u8,
    ensures
        next_key(key, increments) == next_key(
            key.subrange(0, idx + 1),
            increments.subrange(0, idx + 1),
        ) + Seq::new((key.len() - idx - 1) as nat, |j: int| 0u8),
    decreases key.len() - idx,
{
    let zeros = Seq::new((key.len() - idx - 1) as nat, |j: int| 0u8);
    if idx == key.len() - 1 {
        assert(key.subrange(0, idx + 1) =~= key);
        assert(increments.subrange(0, idx + 1) =~= increments);
        assert(next_key(key, increments) =~= next_key(key, increments) + zeros);
    } else {
        let head = key.drop_last();
        let head_steps = increments.drop_last();
        lemma_next_key_suffix(head, head_steps, idx);
        assert(head.subrange(0, idx + 1) =~= key.subrange(0, idx + 1));
        assert(head_steps.subrange(0, idx + 1) =~= increments.subrange(0, idx + 1));
        let shorter = Seq::new((head.len() - idx - 1) as nat, |j: int| 0u8);
        assert((next_key(key.subrange(0, idx + 1), increments.subrange(0, idx + 1))
            + shorter).push(0u8) =~= next_key(
            key.subrange(0, idx + 1),
            increments.subrange(0, idx + 1),
        ) + zeros);
    }
}

/// Tell whether all digits of the key have the highest value.
pub fn is_all_max(key: &Vec<u8>) -> (max: bool)
    ensures
        max == all_max(key@),
{
    let mut i: usize = 0;
    while i < key.len()
        invariant
            i <= key@.len(),
            forall|j: int| 0 <= j < i ==> key@[j] == 255u8,
        decreases key@.len() - i,
    {
        if key[i] != 255 {
            return false;
        }
        i += 1;
    }
    true
}

/// The keys as sequences of sequences of bytes.
pub open spec fn keys_view(keys: Seq<Vec<u8>>) -> Seq<Seq<u8>> {
    Seq::new(keys.len(), |i: int| keys[i]@)
}

/// Generate bytestring keys, all with the same length.
///
/// The `level_widths` argument specifies the number of values generated per
/// digit of the key. For example, using `[3, 2, 1]` will generate keys of
/// length 3. The generated keys will have 4 (3 + 1) unique values for the
/// first digit, 3 unique values for the second digit, and 2 unique values for
/// the last digit. In general, this function will produce `(level_widths[0]
/// + 1)  * (level_widths[1] + 1) * ... * (level_widths[KEY_LENGTH - 1] + 1)`
/// keys in total.
///
/// The key length and every level width must not be 0.
pub fn generate_key_fixed_length<const KEY_LENGTH: usize>(level_widths: [u8; KEY_LENGTH]) -> (keys:
    Vec<Vec<u8>>)
    requires
        KEY_LENGTH > 0,
        forall|i: int| 0 <= i < KEY_LENGTH ==> level_widths@[i] > 0,
    ensures
        fixed_length_keys(keys_view(keys@), level_widths@),
        forall|i: int| 0 <= i < keys@.len() ==> (#[trigger] keys@[i])@.len() == KEY_LENGTH,
{
    let mut increments: [u8; KEY_LENGTH] = vstd::array::array_fill_for_copy_types(0u8);
    let mut i: usize = 0;
    while i < KEY_LENGTH
        invariant
            i <= KEY_LENGTH,
            forall|j: int| 0 <= j < KEY_LENGTH ==> level_widths@[j] > 0,
            forall|j: int| 0 <= j < i ==> increments@[j] == spec_div_ceil(255, level_widths@[j]),
            forall|j: int| 0 <= j < i ==> increments@[j] >= 1,
        decreases KEY_LENGTH - i,
    {
        increments[i] = div_ceil(255, level_widths[i]);
        i += 1;
    }
    assert(increments@ =~= increments_of(level_widths@));
    let mut current: Vec<u8> = Vec::new();
    let mut j: usize = 0;
    while j < KEY_LENGTH
        invariant
            j <= KEY_LENGTH,
            current@.len() == j,
            forall|k: int| 0 <= k < j ==> current@[k] == 0u8,
        decreases KEY_LENGTH - j,
    {
        current.push(0);
        j += 1;
    }
    assert(current@ =~= Seq::new(level_widths@.len(), |i: int| 0u8));
    let mut keys: Vec<Vec<u8>> = Vec::new();
    loop
        invariant_except_break
            current@.len() == KEY_LENGTH,
            increments@ == increments_of(level_widths@),
            forall|j: int| 0 <= j < KEY_LENGTH ==> increments@[j] >= 1,
            forall|i: int| 0 <= i < keys@.len() ==> (#[trigger] keys@[i])@.len() == KEY_LENGTH,
            forall|i: int| 0 <= i < keys@.len() ==> !all_max(#[trigger] keys@[i]@),
            forall|i: int|
                0 <= i < keys@.len() - 1 ==> keys@[i + 1]@ == next_key(
                    #[trigger] keys@[i]@,
                    increments@,
                ),
            keys@.len() > 0 ==> keys@[0]@ == Seq::new(level_widths@.len(), |i: int| 0u8),
            keys@.len() > 0 ==> current@ == next_key(keys@[keys@.len() - 1]@, increments@),
            keys@.len() == 0 ==> current@ == Seq::new(level_widths@.len(), |i: int| 0u8),
        ensures
            fixed_length_keys(keys_view(keys@), level_widths@),
            forall|i: int| 0 <= i < keys@.len() ==> (#[trigger] keys@[i])@.len() == KEY_LENGTH,
        decreases pow256(KEY_LENGTH as nat) - key_value(current@),
    {
        let ghost previous = keys@;
        proof {
            lemma_key_value_bound(current@);
        }
        if is_all_max(&current) {
            keys.push(current);
            proof {
                let all = keys_view(keys@);
                assert forall|i: int| 0 <= i < all.len() - 1 implies !all_max(#[trigger] all[i])
                    && all[i + 1] == next_key(all[i], increments_of(level_widths@)) by {
                    assert(keys@[i] == previous[i]);
                    assert(!all_max(previous[i]@));
                    if i + 1 < previous.len() {
                        assert(keys@[i + 1] == previous[i + 1]);
                    }
                }
                assert(all[0] == Seq::new(level_widths@.len(), |i: int| 0u8)) by {
                    if previous.len() > 0 {
                        assert(keys@[0] == previous[0]);
                    }
                }
            }
            break ;
        }
        let mut following: Vec<u8> = Vec::new();
        let mut k: usize = 0;
        while k < KEY_LENGTH
            invariant
                k <= KEY_LENGTH,
                current@.len() == KEY_LENGTH,
                following@.len() == k,
                forall|x: int| 0 <= x < k ==> following@[x] == current@[x],
            decreases KEY_LENGTH - k,
        {
            following.push(current[k]);
            k += 1;
        }
        assert(following@ =~= current@);
        proof {
            lemma_next_key_greater(current@, increments@);
        }
        advance_key(&mut following, &increments);
        proof {
            lemma_key_value_bound(following@);
        }
        keys.push(current);
        proof {
            assert forall|i: int| 0 <= i < keys@.len() - 1 implies keys@[i + 1]@ == next_key(
                #[trigger] keys@[i]@,
                increments@,
            ) by {
                assert(keys@[i] == previous[i]);
                if i + 1 < previous.len() {
                    assert(keys@[i + 1] == previous[i + 1]);
                }
            }
            assert forall|i: int| 0 <= i < keys@.len() implies !all_max(#[trigger] keys@[i]@) by {
                if i < previous.len() {
                    assert(keys@[i] == previous[i]);
                }
            }
            if previous.len() > 0 {
                assert(keys@[0] == previous[0]);
            }
        }
        current = following;
    }
    keys
}

/// A single expansion of an existing key that takes the element at a
/// specified index and copies it multiple times.
#[derive(Debug, Clone, Copy, PartialEq, Eq)]
pub struct PrefixExpansion {
    /// The index in the key of the element that will be copied.
    pub base_index: usize,
    /// The number of copies of the element that the expanded key holds.
    pub expanded_length: usize,
}

/// One of the expansions is for the element at `index`.
pub open spec fn has_expansion(expansions: Seq<PrefixExpansion>, index: int) -> bool {
    exists|e: int| 0 <= e < expansions.len() && (#[trigger] expansions[e]).base_index == index
}

/// The number of copies of the element at `index` that an expanded key
/// holds: the length of the expansion for that index, or one where there is
/// no such expansion.
pub open spec fn expansion_at(expansions: Seq<PrefixExpansion>, index: int) -> nat {
    if has_expansion(expansions, index) {
        expansions[choose|e: int|
            0 <= e < expansions.len() && (#[trigger] expansions[e]).base_index
                == index].expanded_length as nat
    } else {
        1
    }
}

/// The key in which each element of `key` stands as many times as the
/// expansions tell.
pub open spec fn expanded_key(key: Seq<u8>, expansions: Seq<PrefixExpansion>) -> Seq<u8>
    decreases key.len(),
{
    if key.len() == 0 {
        Seq::empty()
    } else {
        expanded_key(key.drop_last(), expansions) + Seq::new(
            expansion_at(expansions, key.len() - 1),
            |j: int| key.last(),
        )
    }
}

/// No two expansions are for the same index.
pub open spec fn expansions_unique(expansions: Seq<PrefixExpansion>) -> bool {
    forall|a: int, b: int|
        0 <= a < b < expansions.len() ==> (#[trigger] expansions[a]).base_index != (
        #[trigger] expansions[b]).base_index
}

/// Look up the number of copies of the element at `index` that an expanded
/// key holds.
pub fn expansion_length(expansions: &[PrefixExpansion], index: usize) -> (length: usize)
    requires
        expansions_unique(expansions@),
    ensures
        length == expansion_at(expansions@, index as int),
{
    let mut e: usize = 0;
    while e < expansions.len()
        invariant
            e <= expansions@.len(),
            expansions_unique(expansions@),
            forall|x: int| 0 <= x < e ==> (#[trigger] expansions@[x]).base_index != index,
        decreases expansions@.len() - e,
    {
        if expansions[e].base_index == index {
            proof {
                let chosen = choose|x: int|
                    0 <= x < expansions@.len() && (#[trigger] expansions@[x]).base_index == index;
                if chosen < e {
                    assert(expansions@[chosen].base_index != expansions@[e as int].base_index);
                }
                if e < chosen {
                    assert(expansions@[e as int].base_index != expansions@[chosen].base_index);
                }
            }
            return expansions[e].expanded_length;
        }
        e += 1;
    }
    1
}

/// Copy each element of the key as many times as the expansions tell.
pub fn apply_expansions_to_key(old_key: &[u8], expansions: &[PrefixExpansion]) -> (new_key: Vec<u8>)
    requires
        expansions_unique(expansions@),
    ensures
        new_key@ == expanded_key(old_key@, expansions@),
{
    let mut new_key: Vec<u8> = Vec::new();
    let mut old_key_index: usize = 0;
    while old_key_index < old_key.len()
        invariant
            old_key_index <= old_key@.len(),
            expansions_unique(expansions@),
            new_key@ == expanded_key(old_key@.subrange(0, old_key_index as int), expansions@),
        decreases old_key@.len() - old_key_index,
    {
        let copies: usize = expansion_length(expansions, old_key_index);
        let element: u8 = old_key[old_key_index];
        let ghost before = new_key@;
        let mut copy: usize = 0;
        while copy < copies
            invariant
                copy <= copies,
                new_key@ == before + Seq::new(copy as nat, |j: int| element),
            decreases copies - copy,
        {
            new_key.push(element);
            copy += 1;
            assert(new_key@ =~= before + Seq::new(copy as nat, |j: int| element));
        }
        proof {
            let head = old_key@.subrange(0, old_key_index + 1);
            assert(head.drop_last() =~= old_key@.subrange(0, old_key_index as int));
            assert(head.last() == element);
        }
        old_key_index += 1;
    }
    assert(old_key@.subrange(0, old_key@.len() as int) =~= old_key@);
    new_key
}

/// Generate fixed length bytestring keys, where specific portions of the key
/// are expanded as duplicate bytes.
///
/// This is meant to simulate keys with shared prefixes in different portions
/// of the key string. The keys are those of [`generate_key_fixed_length`], in
/// which each element stands as many times as the expansions tell.
///
/// The key length and every level width must not be 0. Every expansion must
/// be for an index within the key and hold one copy at least, and no two
/// expansions may be for the same index.
pub fn generate_key_with_prefix<const KEY_LENGTH: usize>(
    level_widths: [u8; KEY_LENGTH],
    prefix_expansions: &[PrefixExpansion],
) -> (keys: Vec<Vec<u8>>)
    requires
        KEY_LENGTH > 0,
        forall|i: int| 0 <= i < KEY_LENGTH ==> level_widths@[i] > 0,
        forall|e: int|
            0 <= e < prefix_expansions@.len() ==> (#[trigger] prefix_expansions@[e]).base_index
                < KEY_LENGTH && prefix_expansions@[e].expanded_length > 0,
        expansions_unique(prefix_expansions@),
    ensures
        exists|base: Seq<Seq<u8>>|
            {
                &&& #[trigger] fixed_length_keys(base, level_widths@)
                &&& keys@.len() == base.len()
                &&& forall|i: int|
                    0 <= i < base.len() ==> (#[trigger] keys@[i])@ == expanded_key(
                        base[i],
                        prefix_expansions@,
                    )
            },
{
    let base_keys = generate_key_fixed_length(level_widths);
    let ghost base = keys_view(base_keys@);
    let mut keys: Vec<Vec<u8>> = Vec::new();
    let mut i: usize = 0;
    while i < base_keys.len()
        invariant
            i <= base_keys@.len(),
            keys@.len() == i,
            base == keys_view(base_keys@),
            expansions_unique(prefix_expansions@),
            forall|j: int|
                0 <= j < i ==> (#[trigger] keys@[j])@ == expanded_key(base[j], prefix_expansions@),
        decreases base_keys@.len() - i,
    {
        let key = apply_expansions_to_key(base_keys[i].as_slice(), prefix_expansions);
        keys.push(key);
        i += 1;
    }
    assert(fixed_length_keys(base, level_widths@));
    keys
}

/// The entries as pairs of a sequence of bytes and a value.
pub open spec fn entries_view<V>(entries: Seq<(Vec<u8>, V)>) -> Seq<(Seq<u8>, V)> {
    Seq::new(entries.len(), |i: int| (entries[i].0@, entries[i].1))
}

/// The map that holds each of the entries, where of two entries with the same
/// key it holds the later one.
pub open spec fn entries_fold<V>(entries: Seq<(Seq<u8>, V)>) -> Map<Seq<u8>, V>
    decreases entries.len(),
{
    if entries.len() == 0 {
        Map::empty()
    } else {
        entries_fold(entries.drop_last()).insert(entries.last().0, entries.last().1)
    }
}

/// No key of the entries is a prefix of another key of the entries.
pub open spec fn keys_prefix_free<V>(entries: Seq<(Seq<u8>, V)>) -> bool {
    forall|i: int, j: int|
        0 <= i < entries.len() && 0 <= j < entries.len() && entries[i].0 != entries[j].0
            ==> !is_prefix_of((#[trigger] entries[i]).0, (#[trigger] entries[j]).0)
}

/// Build a tree that holds the given entries by inserting them one after the
/// other into a tree that starts with the first of them.
///
/// There must be an entry, and no key may be a prefix of another key.
pub fn setup_tree_from_entries<V, const PREFIX_LEN: usize>(entries: Vec<(Vec<u8>, V)>) -> (root:
    OpaqueNodePtr<V, PREFIX_LEN>)
    requires
        entries@.len() > 0,
        keys_prefix_free(entries_view(entries@)),
    ensures
        root.consistent(Seq::empty()),
        root@ == entries_fold(entries_view(entries@)),
{
    let ghost all = entries_view(entries@);
    let mut entries = entries;
    let mut slots = into_slots(&mut entries);
    let len: usize = slots.len();
    let mut current_root: Option<OpaqueNodePtr<V, PREFIX_LEN>> = None;
    let mut i: usize = 0;
    assert(all.subrange(0, 0) =~= Seq::empty());
    while i < len
        invariant
            i <= len,
            len == all.len(),
            len == slots@.len(),
            len > 0,
            keys_prefix_free(all),
            forall|j: int|
                i <= j < len ==> (#[trigger] slots@[j]) is Some && (
                slots@[j].unwrap().0@,
                slots@[j].unwrap().1,
            ) == all[j],
            tree_consistent(current_root),
            i > 0 ==> current_root is Some,
            tree_map(current_root) == entries_fold(all.subrange(0, i as int)),
            forall|k: Seq<u8>|
                #[trigger] tree_map(current_root).contains_key(k) ==> among_first(all, i as int, k),
        decreases len - i,
    {
        let ghost before = tree_map(current_root);
        match slots[i].take() {
            Some(entry) => {
                let (key, value) = entry;
                proof {
                    if prefix_conflict(before, key@) {
                        let other = choose|other: Seq<u8>| #[trigger] conflicts(before, key@, other);
                        assert(among_first(all, i as int, other));
                        let j = choose|j: int| 0 <= j < i && (#[trigger] all[j]).0 == other;
                        assert(!is_prefix_of(all[j].0, all[i as int].0));
                        assert(!is_prefix_of(all[i as int].0, all[j].0));
                    }
                }
                insert(&mut current_root, key, value);
                proof {
                    let head = all.subrange(0, i + 1);
                    assert(head.drop_last() =~= all.subrange(0, i as int));
                    assert(head.last() == all[i as int]);
                    assert forall|k: Seq<u8>| #[trigger]
                        tree_map(current_root).contains_key(k) implies among_first(
                        all,
                        i + 1,
                        k,
                    ) by {
                        if k == all[i as int].0 {
                            assert(0 <= i < i + 1 && all[i as int].0 == k);
                        } else {
                            assert(before.contains_key(k));
                            assert(among_first(all, i as int, k));
                            let j = choose|j: int| 0 <= j < i && (#[trigger] all[j]).0 == k;
                            assert(0 <= j < i + 1 && all[j].0 == k);
                        }
                    }
                }
            },
            None => {},
        }
        i += 1;
    }
    assert(all.subrange(0, len as int) =~= all);
    match current_root {
        Some(root) => root,
        None => unreached(),
    }
}

} // verus!
