//! How floats are ordered, and which tokens are kept and drawn.

use vstd::prelude::*;

use crate::char_tokenizer::{self, CharModel};
use crate::float_order;
use crate::sampling;
use crate::text;

verus! {

/// A bit pattern is that of no number where its exponent is all ones and its
/// fraction is not zero, whatever its sign. The infinities are numbers.
pub proof fn law_what_is_no_number(bits: u32)
    ensures
        float_order::not_a_number(bits) <==> 0x7f80_0000 < bits < 0x8000_0000 || 0xff80_0000
            < bits,
{
}

/// Of two positive floats the one with the larger bit pattern is larger, and of two
/// negative ones it is smaller. A negative float is less than a positive one, unless
/// both are zero. Nothing is less than what is no number, nor is it less than
/// anything.
pub proof fn law_floats_are_ordered_by_their_bits(a: u32, b: u32)
    ensures
        a <= 0x7f80_0000 && b <= 0x7f80_0000 ==> (float_order::less(a, b) <==> a < b),
        0x8000_0000 <= a <= 0xff80_0000 && 0x8000_0000 <= b <= 0xff80_0000 ==> (float_order::less(
            a,
            b,
        ) <==> a > b),
        0x8000_0000 <= a <= 0xff80_0000 && b <= 0x7f80_0000 ==> (float_order::less(a, b) <==> a
            != 0x8000_0000 || b != 0),
        a <= 0x7f80_0000 && 0x8000_0000 <= b ==> !float_order::less(a, b),
        float_order::not_a_number(a) || float_order::not_a_number(b) ==> !float_order::less(a, b)
            && !float_order::at_least(a, b),
        !float_order::not_a_number(a) && !float_order::not_a_number(b) ==> (float_order::at_least(
            a,
            b,
        ) <==> !float_order::less(a, b)),
{
}

/// The order of the scores decides which token comes first. Of tokens with equal
/// scores the one with the lower id does.
pub proof fn law_higher_scores_come_first(
    scores: Seq<u32>,
    list: Seq<usize>,
    i: int,
    j: int,
)
    requires
        sampling::in_order(scores, list, 0, scores.len() as int),
        forall|k: int|
            0 <= k < scores.len() ==> !float_order::not_a_number(#[trigger] scores[k]),
        0 <= i < j < list.len(),
    ensures
        !float_order::less(scores[list[i] as int], scores[list[j] as int]),
        float_order::less(scores[list[j] as int], scores[list[i] as int]) || list[i] < list[j],
{
    assert(sampling::ahead(scores, list[i] as int, list[j] as int));
}

/// The first `k` of a list are its beginning, and all of it where there are no more.
pub proof fn law_the_first_of_a_list(list: Seq<usize>, k: int)
    requires
        0 <= k,
    ensures
        k <= list.len() ==> sampling::first(list, k).len() == k,
        k >= list.len() ==> sampling::first(list, k) == list,
        sampling::first(list, k).is_prefix_of(list),
{
    if k == list.len() {
        assert(list.take(k) =~= list);
    }
}

/// Scores can be compared unless one of several is no number.
pub proof fn law_which_scores_can_be_compared(scores: Seq<u32>)
    ensures
        scores.len() <= 1 ==> sampling::comparable(scores),
        scores.len() > 1 ==> (sampling::comparable(scores) <==> forall|i: int|
            0 <= i < scores.len() ==> !float_order::not_a_number(#[trigger] scores[i])),
{
}

/// A share of one or more, whose bit pattern is at least that of one, keeps all
/// candidates. A smaller one keeps them up to the first sum that reaches it, or all
/// where none does.
pub proof fn law_a_share_keeps_what_reaches_it(sums: Seq<u32>, p: u32, k: int)
    ensures
        0x3f80_0000 <= p <= 0x7f80_0000 ==> sampling::nucleus(sums, p) == sums.len(),
        p < 0x3f80_0000 && 0 <= k < sums.len() && float_order::at_least(sums[k], p) && (forall|
            i: int,
        |
            0 <= i < k ==> !float_order::at_least(#[trigger] sums[i], p)) ==> sampling::nucleus(
            sums,
            p,
        ) == k + 1,
        p < 0x3f80_0000 && (forall|i: int|
            0 <= i < sums.len() ==> !float_order::at_least(#[trigger] sums[i], p))
            ==> sampling::nucleus(sums, p) == sums.len(),
{
    if sums.len() > 0 {
        sampling::law_a_nucleus_is_never_empty(sums, p);
        let n = sampling::nucleus(sums, p);
        if p < 0x3f80_0000 && 0 <= k < sums.len() && float_order::at_least(sums[k], p) && (forall|
            i: int,
        |
            0 <= i < k ==> !float_order::at_least(#[trigger] sums[i], p)) {
            if n - 1 < k {
                assert(n < sums.len());
                assert(float_order::at_least(sums[n - 1], p));
            }
        }
    }
}

/// What is drawn is the first candidate whose sum is above the random number, and
/// the first of all where there is none.
pub proof fn law_the_first_sum_above_is_drawn(sums: Seq<u32>, r: u32, k: int)
    ensures
        0 <= k < sums.len() && float_order::less(r, sums[k]) && (forall|i: int|
            0 <= i < k ==> !float_order::less(r, #[trigger] sums[i])) ==> sampling::place_drawn(
            sums,
            r,
        ) == k,
        (forall|i: int| 0 <= i < sums.len() ==> !float_order::less(r, #[trigger] sums[i]))
            ==> sampling::place_drawn(sums, r) == 0,
{
    if sums.len() > 0 {
        sampling::law_a_draw_finds_its_part(sums, r);
    }
}

/// The characters of a text are listed once each, in the order of their code points.
pub proof fn law_characters_are_listed_once(chars: Seq<char>, s: Seq<char>, c: char)
    requires
        char_tokenizer::lists_chars(chars, s),
    ensures
        chars.filter(|d: char| d == c).len() == if s.contains(c) {
            1nat
        } else {
            0
        },
        forall|i: int, j: int|
            0 <= i < j < chars.len() ==> #[trigger] chars[i] < #[trigger] chars[j],
{
    assert forall|i: int, j: int| 0 <= i < j < chars.len() implies #[trigger] chars[i]
        < #[trigger] chars[j] by {
        assert(text::code(chars[i]) < text::code(chars[j]));
        lemma_codes_order_characters(chars[i], chars[j]);
    }
    lemma_listed_once(chars, c);
}

/// Characters are ordered as their code points.
proof fn lemma_codes_order_characters(a: char, b: char)
    ensures
        text::code(a) < text::code(b) <==> a < b,
{
}

/// In a list without repetition everything stands once, or not at all.
proof fn lemma_listed_once(chars: Seq<char>, c: char)
    requires
        forall|i: int, j: int|
            0 <= i < j < chars.len() ==> #[trigger] chars[i] < #[trigger] chars[j],
    ensures
        chars.filter(|d: char| d == c).len() == if chars.contains(c) {
            1nat
        } else {
            0
        },
    decreases chars.len(),
{
    reveal(Seq::filter);
    if chars.len() > 0 {
        let shorter = chars.drop_last();
        let last = chars.len() - 1;
        assert forall|i: int, j: int| 0 <= i < j < shorter.len() implies #[trigger] shorter[i]
            < #[trigger] shorter[j] by {
            assert(chars[i] < chars[j]);
        }
        lemma_listed_once(shorter, c);
        if shorter.contains(c) {
            let i = choose|i: int| 0 <= i < shorter.len() && shorter[i] == c;
            assert(chars[i] == c);
            assert(chars[i] < chars[last]);
        }
        if chars.contains(c) && chars[last] != c {
            let i = choose|i: int| 0 <= i < chars.len() && chars[i] == c;
            assert(shorter[i] == c);
        }
    }
}

/// The id of a character is the place of the character in the table; a character
/// that is not there has the id 0.
pub proof fn law_ids_name_their_characters(m: CharModel, s: Seq<char>, i: int)
    requires
        0 <= i < s.len(),
        m.chars.len() <= usize::MAX,
    ensures
        m.encode(s).len() == s.len(),
        m.encode(s)[i] != 0 ==> m.encode(s)[i] < m.chars.len() && m.chars[m.encode(s)[i] as int]
            == s[i],
        m.encode(s)[i] == 0 <==> !m.chars.skip(1).contains(s[i]) || m.chars.len() == 0,
{
    let letters = m.letters();
    crate::merges::lemma_last_index(letters, s[i]);
    if m.chars.len() > 0 {
        assert(letters == m.chars.skip(1));
    }
}

/// Each id from 1 on adds its character to the text, and any other id adds nothing.
pub proof fn law_ids_are_decoded_one_by_one(m: CharModel, ids: Seq<usize>, id: usize)
    ensures
        m.decode(Seq::empty()) == Seq::<char>::empty(),
        0 < id < m.chars.len() ==> m.decode(ids.push(id)) == m.decode(ids).push(
            m.chars[id as int],
        ),
        id == 0 || id >= m.chars.len() ==> m.decode(ids.push(id)) == m.decode(ids),
{
    assert(ids.push(id).drop_last() =~= ids);
}

} // verus!
