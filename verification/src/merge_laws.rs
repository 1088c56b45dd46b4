//! What holds of merges that were learned one after the other.
//!
//! As long as no merge crosses the ends of a piece of a word, the piece is cut as
//! it would be on its own. So whether two symbols ever stand side by side depends
//! on the merges alone, not on the words around them.

use vstd::prelude::*;

use crate::merges;
use crate::pair_table::Pair;
use crate::pairs::{self, Word};
use crate::text;

verus! {

/// `symbols` with the pairs of `list` merged one after the other.
pub open spec fn merged_in_turn(symbols: Seq<Seq<char>>, list: Seq<Pair>) -> Seq<Seq<char>>
    decreases list.len(),
{
    if list.len() == 0 {
        symbols
    } else {
        merges::merge_pair(
            merged_in_turn(symbols, list.drop_last()),
            list.last().0,
            list.last().1,
        )
    }
}

/// Each pair stood side by side when it was merged: the text of the pair, cut into
/// characters, is just the pair once the merges before it are done.
#[verifier::opaque]
pub open spec fn sound(list: Seq<Pair>) -> bool {
    forall|k: int|
        0 <= k < list.len() ==> merged_in_turn(
            text::singletons((#[trigger] list[k]).0 + list[k].1),
            list.take(k),
        ) == seq![list[k].0, list[k].1]
}

/// Words merged together are words merged each on its own.
pub proof fn lemma_words_in_turn(words: Seq<Word>, list: Seq<Pair>)
    ensures
        merges::words_after(words, list).len() == words.len(),
        forall|i: int|
            0 <= i < words.len() ==> (#[trigger] merges::words_after(words, list)[i]).symbols
                == merged_in_turn(words[i].symbols, list),
    decreases list.len(),
{
    if list.len() > 0 {
        let before = merges::words_after(words, list.drop_last());
        let after = merges::words_after(words, list);
        lemma_words_in_turn(words, list.drop_last());
        assert forall|i: int| 0 <= i < words.len() implies (#[trigger] after[i]).symbols
            == merged_in_turn(words[i].symbols, list) by {
            assert(before[i].symbols == merged_in_turn(words[i].symbols, list.drop_last()));
        }
    }
}

/// Two lists merged one behind the other.
proof fn lemma_in_turn_concat(symbols: Seq<Seq<char>>, first: Seq<Pair>, second: Seq<Pair>)
    ensures
        merged_in_turn(symbols, first + second) == merged_in_turn(
            merged_in_turn(symbols, first),
            second,
        ),
    decreases second.len(),
{
    if second.len() == 0 {
        assert(first + second =~= first);
    } else {
        lemma_in_turn_concat(symbols, first, second.drop_last());
        assert((first + second).drop_last() =~= first + second.drop_last());
    }
}

/// Merging a pair neither lengthens nor changes a word.
proof fn lemma_merge_pair_keeps(symbols: Seq<Seq<char>>, a: Seq<char>, b: Seq<char>)
    ensures
        merges::merge_pair(symbols, a, b).len() <= symbols.len(),
        text::joined(merges::merge_pair(symbols, a, b)) == text::joined(symbols),
    decreases symbols.len(),
{
    if symbols.len() > 0 {
        if symbols.len() >= 2 && symbols[0] == a && symbols[1] == b {
            let rest = symbols.skip(2);
            lemma_merge_pair_keeps(rest, a, b);
            assert(symbols =~= seq![a] + seq![b] + rest);
            text::lemma_joined_concat(seq![a] + seq![b], rest);
            text::lemma_joined_concat(seq![a], seq![b]);
            text::lemma_joined_concat(seq![a + b], merges::merge_pair(rest, a, b));
            text::lemma_joined_one(a);
            text::lemma_joined_one(b);
            text::lemma_joined_one(a + b);
        } else {
            let rest = symbols.skip(1);
            lemma_merge_pair_keeps(rest, a, b);
            assert(symbols =~= seq![symbols[0]] + rest);
            text::lemma_joined_concat(seq![symbols[0]], rest);
            text::lemma_joined_concat(seq![symbols[0]], merges::merge_pair(rest, a, b));
        }
    }
}

/// Merging pairs in turn does not change a word.
proof fn lemma_in_turn_keeps(symbols: Seq<Seq<char>>, list: Seq<Pair>)
    ensures
        text::joined(merged_in_turn(symbols, list)) == text::joined(symbols),
    decreases list.len(),
{
    if list.len() > 0 {
        lemma_in_turn_keeps(symbols, list.drop_last());
        lemma_merge_pair_keeps(
            merged_in_turn(symbols, list.drop_last()),
            list.last().0,
            list.last().1,
        );
    }
}

/// More merges leave no more symbols.
proof fn lemma_in_turn_shrinks(symbols: Seq<Seq<char>>, list: Seq<Pair>, i: int, j: int)
    requires
        0 <= i <= j <= list.len(),
    ensures
        merged_in_turn(symbols, list.take(j)).len() <= merged_in_turn(symbols, list.take(i)).len(),
    decreases j - i,
{
    if i < j {
        lemma_in_turn_shrinks(symbols, list, i, j - 1);
        assert(list.take(j).drop_last() =~= list.take(j - 1));
        lemma_merge_pair_keeps(
            merged_in_turn(symbols, list.take(j - 1)),
            list[j - 1].0,
            list[j - 1].1,
        );
    }
}

/// Where the merged symbols are cut in two, so are the symbols, and the two parts
/// merge on their own.
proof fn lemma_merge_pair_splits(
    symbols: Seq<Seq<char>>,
    a: Seq<char>,
    b: Seq<char>,
    left: Seq<Seq<char>>,
    right: Seq<Seq<char>>,
) -> (n: int)
    requires
        merges::merge_pair(symbols, a, b) == left + right,
    ensures
        0 <= n <= symbols.len(),
        merges::merge_pair(symbols.take(n), a, b) == left,
        merges::merge_pair(symbols.skip(n), a, b) == right,
    decreases symbols.len(),
{
    let all = merges::merge_pair(symbols, a, b);
    if left.len() == 0 {
        assert(symbols.take(0) =~= Seq::empty());
        assert(merges::merge_pair(symbols.take(0), a, b) =~= left);
        assert(symbols.skip(0) =~= symbols);
        assert(left + right =~= right);
        0
    } else {
        assert(all.len() > 0);
        let joins = symbols.len() >= 2 && symbols[0] == a && symbols[1] == b;
        let step: int = if joins {
            2
        } else {
            1
        };
        let head = if joins {
            a + b
        } else {
            symbols[0]
        };
        let rest = symbols.skip(step);
        let tail = merges::merge_pair(rest, a, b);
        assert(all == seq![head] + tail);
        assert(all[0] == left[0]);
        assert(tail =~= all.skip(1));
        assert(all.skip(1) =~= left.skip(1) + right);
        let m = lemma_merge_pair_splits(rest, a, b, left.skip(1), right);
        let n = m + step;
        let part = symbols.take(n);
        assert(part.skip(step) =~= rest.take(m));
        assert(symbols.skip(n) =~= rest.skip(m));
        if joins {
            assert(part[0] == a && part[1] == b);
        } else {
            assert(part[0] == symbols[0]);
            if part.len() >= 2 {
                assert(part[1] == symbols[1]);
            }
        }
        assert(merges::merge_pair(part, a, b) == seq![head] + left.skip(1));
        assert(seq![head] + left.skip(1) =~= left);
        n
    }
}

/// The same for several merges.
proof fn lemma_in_turn_splits(
    symbols: Seq<Seq<char>>,
    list: Seq<Pair>,
    left: Seq<Seq<char>>,
    right: Seq<Seq<char>>,
) -> (n: int)
    requires
        merged_in_turn(symbols, list) == left + right,
    ensures
        0 <= n <= symbols.len(),
        merged_in_turn(symbols.take(n), list) == left,
        merged_in_turn(symbols.skip(n), list) == right,
    decreases list.len(),
{
    if list.len() == 0 {
        let n = left.len() as int;
        assert(symbols.take(n) =~= left);
        assert(symbols.skip(n) =~= right);
        n
    } else {
        let p = list.last();
        let shorter = list.drop_last();
        let before = merged_in_turn(symbols, shorter);
        let m = lemma_merge_pair_splits(before, p.0, p.1, left, right);
        assert(before =~= before.take(m) + before.skip(m));
        lemma_in_turn_splits(symbols, shorter, before.take(m), before.skip(m))
    }
}

/// Two symbols that stand side by side in a text are what their own text is merged
/// to.
proof fn lemma_neighbours_alone(s: Seq<char>, list: Seq<Pair>, i: int)
    requires
        0 <= i < merged_in_turn(text::singletons(s), list).len() - 1,
    ensures
        ({
            let (a, b) = pairs::pair_at(merged_in_turn(text::singletons(s), list), i);
            merged_in_turn(text::singletons(a + b), list) == seq![a, b]
        }),
{
    let symbols = text::singletons(s);
    let after = merged_in_turn(symbols, list);
    let pair = seq![after[i], after[i + 1]];
    assert(after =~= after.take(i) + after.skip(i));
    let n = lemma_in_turn_splits(symbols, list, after.take(i), after.skip(i));
    assert(after.skip(i) =~= pair + after.skip(i + 2));
    let m = lemma_in_turn_splits(symbols.skip(n), list, pair, after.skip(i + 2));
    let piece = s.subrange(n, n + m);
    assert(symbols.skip(n).take(m) =~= text::singletons(piece));
    lemma_in_turn_keeps(text::singletons(piece), list);
    text::lemma_joined_singletons(piece);
    assert(pair =~= seq![after[i]] + seq![after[i + 1]]);
    text::lemma_joined_concat(seq![after[i]], seq![after[i + 1]]);
    text::lemma_joined_one(after[i]);
    text::lemma_joined_one(after[i + 1]);
}

/// A part of a pair that was merged is what its own text is merged to.
proof fn lemma_parts_alone(list: Seq<Pair>, k: int)
    requires
        sound(list),
        0 <= k < list.len(),
    ensures
        merged_in_turn(text::singletons(list[k].0), list.take(k)).len() == 1,
        merged_in_turn(text::singletons(list[k].1), list.take(k)).len() == 1,
{
    reveal(sound);
    let (a, b) = list[k];
    let s = a + b;
    let symbols = text::singletons(s);
    assert(merged_in_turn(symbols, list.take(k)) == seq![a, b]);
    assert(seq![a, b] =~= seq![a] + seq![b]);
    let n = lemma_in_turn_splits(symbols, list.take(k), seq![a], seq![b]);
    assert(symbols.take(n) =~= text::singletons(s.take(n)));
    assert(symbols.skip(n) =~= text::singletons(s.skip(n)));
    lemma_in_turn_keeps(symbols.take(n), list.take(k));
    lemma_in_turn_keeps(symbols.skip(n), list.take(k));
    text::lemma_joined_singletons(s.take(n));
    text::lemma_joined_singletons(s.skip(n));
    text::lemma_joined_one(a);
    text::lemma_joined_one(b);
}

/// No pair is merged twice.
pub proof fn law_sound_merges_repeat_no_pair(list: Seq<Pair>)
    requires
        sound(list),
    ensures
        list.no_duplicates(),
{
    reveal(sound);
    assert forall|i: int, j: int| 0 <= i < j < list.len() implies list[i] != list[j] by {
        if list[i] == list[j] {
            let (a, b) = list[i];
            let symbols = text::singletons(a + b);
            let pair = seq![a, b];
            assert(merged_in_turn(symbols, list.take(i)) == pair);
            assert(merged_in_turn(symbols, list.take(j)) == pair);
            assert(list.take(i + 1).drop_last() =~= list.take(i));
            assert(merged_in_turn(symbols, list.take(i + 1)) == merges::merge_pair(pair, a, b));
            assert(pair.skip(2) =~= Seq::empty());
            assert(merges::merge_pair(pair.skip(2), a, b).len() == 0);
            lemma_in_turn_shrinks(symbols, list, i + 1, j);
        }
    }
}

/// A joined pair is in no pair that was merged before it, nor in the pair itself.
proof fn lemma_joined_pair_is_new(list: Seq<Pair>, j: int, k: int)
    requires
        sound(list),
        0 <= j <= k < list.len(),
    ensures
        list[j].0 != list[k].0 + list[k].1,
        list[j].1 != list[k].0 + list[k].1,
{
    let symbols = text::singletons(list[k].0 + list[k].1);
    assert(merged_in_turn(symbols, list.take(k)).len() == 2) by {
        reveal(sound);
    }
    lemma_parts_alone(list, j);
    lemma_in_turn_shrinks(symbols, list, j, k);
}

/// No neighbours form a pair of a rank below `k`.
spec fn clear(symbols: Seq<Seq<char>>, list: Seq<Pair>, k: int) -> bool {
    forall|i: int|
        0 <= i < symbols.len() - 1 && (#[trigger] merges::rank_at(symbols, list, i)) is Some
            ==> merges::rank_at(symbols, list, i)->0 >= k
}

/// All pairs before `n` have a rank above `k`, where they have one.
spec fn clear_before(symbols: Seq<Seq<char>>, list: Seq<Pair>, k: int, n: int) -> bool {
    forall|i: int|
        0 <= i < n && i < symbols.len() - 1 && (#[trigger] merges::rank_at(symbols, list, i)) is Some
            ==> merges::rank_at(symbols, list, i)->0 > k
}

/// Joining the leftmost pair of rank `k` makes no pair of that rank or a lower one.
proof fn lemma_joining_stays_clear(symbols: Seq<Seq<char>>, list: Seq<Pair>, k: int, n: int)
    requires
        sound(list),
        0 <= k < list.len(),
        0 <= n < symbols.len() - 1,
        pairs::pair_at(symbols, n) == list[k],
        clear(symbols, list, k),
        clear_before(symbols, list, k, n),
    ensures
        merges::apply_merges(symbols, list) == merges::apply_merges(
            merges::join_at(symbols, n),
            list,
        ),
        clear(merges::join_at(symbols, n), list, k),
        clear_before(merges::join_at(symbols, n), list, k, n + 1),
{
    let next = merges::join_at(symbols, n);
    let joined = list[k].0 + list[k].1;
    law_sound_merges_repeat_no_pair(list);
    merges::lemma_last_index(list, list[k]);
    assert(merges::rank_at(symbols, list, n) == Some(k)) by {
        assert(list.contains(list[k]));
    }
    assert(merges::lowest_at(symbols, list, n));
    merges::lemma_apply_step(symbols, list, n);
    assert(next[n] == joined);
    assert forall|i: int|
        0 <= i < next.len() - 1 && (#[trigger] merges::rank_at(next, list, i)) is Some implies
        merges::rank_at(next, list, i)->0 >= k && (i <= n ==> merges::rank_at(next, list, i)->0
        > k) by {
        let r = merges::rank_at(next, list, i)->0;
        merges::lemma_last_index(list, pairs::pair_at(next, i));
        if i < n - 1 {
            assert(pairs::pair_at(next, i) == pairs::pair_at(symbols, i));
            assert(merges::rank_at(symbols, list, i) is Some);
        } else if i <= n {
            if r <= k {
                lemma_joined_pair_is_new(list, r, k);
            }
        } else {
            assert(pairs::pair_at(next, i) == pairs::pair_at(symbols, i + 1));
            assert(merges::rank_at(symbols, list, i + 1) is Some);
        }
    }
}

/// Where only pairs of rank `k` and higher are left, and none of rank `k` before
/// `tail`, joining the leftmost pair again and again merges the pair of rank `k`.
proof fn lemma_one_rank(
    head: Seq<Seq<char>>,
    tail: Seq<Seq<char>>,
    list: Seq<Pair>,
    k: int,
)
    requires
        sound(list),
        0 <= k < list.len(),
        clear(head + tail, list, k),
        clear_before(head + tail, list, k, head.len() as int),
    ensures
        merges::apply_merges(head + tail, list) == merges::apply_merges(
            head + merges::merge_pair(tail, list[k].0, list[k].1),
            list,
        ),
        clear(head + merges::merge_pair(tail, list[k].0, list[k].1), list, k + 1),
    decreases tail.len(),
{
    let (a, b) = list[k];
    let all = head + tail;
    let n = head.len() as int;
    let after = head + merges::merge_pair(tail, a, b);
    if tail.len() == 0 {
        assert(after =~= all);
        assert(clear(all, list, k + 1)) by {
            assert forall|i: int|
                0 <= i < all.len() - 1 && (#[trigger] merges::rank_at(all, list, i)) is Some implies
                merges::rank_at(all, list, i)->0 >= k + 1 by {
                assert(i < n);
            }
        }
    } else if tail.len() >= 2 && tail[0] == a && tail[1] == b {
        let next_head = head.push(a + b);
        let next_tail = tail.skip(2);
        assert(pairs::pair_at(all, n) == (a, b));
        lemma_joining_stays_clear(all, list, k, n);
        assert(merges::join_at(all, n) =~= next_head + next_tail);
        lemma_one_rank(next_head, next_tail, list, k);
        assert(after =~= next_head + merges::merge_pair(next_tail, a, b));
    } else {
        let next_head = head.push(tail[0]);
        let next_tail = tail.skip(1);
        assert(next_head + next_tail =~= all);
        assert forall|i: int|
            0 <= i < n + 1 && i < all.len() - 1 && (#[trigger] merges::rank_at(all, list, i)) is Some
            implies merges::rank_at(all, list, i)->0 > k by {
            if i == n {
                merges::lemma_last_index(list, pairs::pair_at(all, i));
                assert(pairs::pair_at(all, i) == (tail[0], tail[1]));
            }
        }
        lemma_one_rank(next_head, next_tail, list, k);
        assert(after =~= next_head + merges::merge_pair(next_tail, a, b));
    }
}

/// The merges of rank below `k` come first, one after the other.
proof fn lemma_ranks_in_turn(symbols: Seq<Seq<char>>, list: Seq<Pair>, k: int)
    requires
        sound(list),
        0 <= k <= list.len(),
    ensures
        merges::apply_merges(symbols, list) == merges::apply_merges(
            merged_in_turn(symbols, list.take(k)),
            list,
        ),
        clear(merged_in_turn(symbols, list.take(k)), list, k),
    decreases k,
{
    if k == 0 {
        assert(list.take(0) =~= Seq::empty());
        assert forall|i: int|
            0 <= i < symbols.len() - 1 && (#[trigger] merges::rank_at(symbols, list, i)) is Some
            implies merges::rank_at(symbols, list, i)->0 >= 0 by {
            merges::lemma_last_index(list, pairs::pair_at(symbols, i));
        }
    } else {
        lemma_ranks_in_turn(symbols, list, k - 1);
        let before = merged_in_turn(symbols, list.take(k - 1));
        let none = Seq::<Seq<char>>::empty();
        assert(none + before =~= before);
        lemma_one_rank(none, before, list, k - 1);
        assert(list.take(k).drop_last() =~= list.take(k - 1));
        assert(none + merged_in_turn(symbols, list.take(k)) =~= merged_in_turn(
            symbols,
            list.take(k),
        ));
    }
}

/// Joining the leftmost pair of lowest rank, again and again, is merging the pairs
/// one after the other, as they were learned.
pub proof fn law_lowest_rank_first_is_merging_in_turn(symbols: Seq<Seq<char>>, list: Seq<Pair>)
    requires
        sound(list),
    ensures
        merges::apply_merges(symbols, list) == merged_in_turn(symbols, list),
{
    let n = list.len() as int;
    let after = merged_in_turn(symbols, list);
    lemma_ranks_in_turn(symbols, list, n);
    assert(list.take(n) =~= list);
    assert forall|i: int| !merges::lowest_at(after, list, i) by {
        if merges::lowest_at(after, list, i) {
            merges::lemma_last_index(list, pairs::pair_at(after, i));
            assert(merges::rank_at(after, list, i) is Some);
        }
    }
}

/// What is learned on words that sound merges have cut continues those merges
/// soundly.
pub proof fn lemma_learned_merges_are_sound(
    list: Seq<Pair>,
    texts: Seq<Seq<char>>,
    words: Seq<Word>,
    before: Seq<Seq<char>>,
    run: Seq<Pair>,
    after: Seq<Seq<char>>,
    size: nat,
)
    requires
        sound(list),
        words.len() == texts.len(),
        forall|i: int|
            0 <= i < words.len() ==> (#[trigger] words[i]).symbols == merged_in_turn(
                text::singletons(texts[i]),
                list,
            ),
        merges::learned(words, before, run, after, size),
    ensures
        sound(list + run),
{
    reveal(sound);
    let all = list + run;
    let n = list.len() as int;
    assert forall|k: int| 0 <= k < all.len() implies merged_in_turn(
        text::singletons((#[trigger] all[k]).0 + all[k].1),
        all.take(k),
    ) == seq![all[k].0, all[k].1] by {
        if k < n {
            assert(all[k] == list[k]);
            assert(all.take(k) =~= list.take(k));
        } else {
            let p = run[k - n];
            let done = run.take(k - n);
            let state = merges::words_after(words, done);
            assert(pairs::most_frequent(state, p));
            let w = choose|w: int|
                0 <= w < state.len() && pairs::has_pair(#[trigger] state[w].symbols, p);
            lemma_words_in_turn(words, done);
            let symbols = state[w].symbols;
            assert(words[w].symbols == merged_in_turn(text::singletons(texts[w]), list));
            lemma_in_turn_concat(text::singletons(texts[w]), list, done);
            assert(all.take(k) =~= list + done);
            let i = choose|i: int|
                0 <= i < symbols.len() - 1 && #[trigger] pairs::pair_at(symbols, i) == p;
            lemma_neighbours_alone(texts[w], all.take(k), i);
        }
    }
}

} // verus!
