//! What the frequency of a pair means: the number of places at which the pair stands
//! in all words of a text, each word as often as it occurs.

use vstd::prelude::*;

use crate::bpe_tokenizer;
use crate::char_bpe_tokenizer::{self, CharBpeModel};
use crate::merge_laws;
use crate::merges;
use crate::pair_table::Pair;
use crate::pairs::{self, Word};
use crate::text;
use crate::word_freq::{self, WordFreq};

verus! {

/// The places at which the pair `p` stands in a list of words cut into symbols: the
/// number of the word, and the number of the first of the two symbols in it.
pub open spec fn places(cut: Seq<Seq<Seq<char>>>, p: Pair) -> Set<(int, int)> {
    Set::new(
        |at: (int, int)|
            0 <= at.0 < cut.len() && 0 <= at.1 && at.1 + 1 < cut[at.0].len() && cut[at.0][at.1]
                == p.0 && cut[at.0][at.1 + 1] == p.1,
    )
}

/// `p` stands somewhere, and no pair stands at more places. Counts do not go beyond
/// what a `usize` holds.
pub open spec fn most_places(cut: Seq<Seq<Seq<char>>>, p: Pair) -> bool {
    &&& places(cut, p).len() > 0
    &&& forall|q: Pair|
        (#[trigger] places(cut, q)).len() <= places(cut, p).len() || places(cut, p).len()
            >= usize::MAX
}

/// The places of the word `i` alone that come before symbol `n`.
spec fn word_places(cut: Seq<Seq<Seq<char>>>, p: Pair, i: int, n: int) -> Set<(int, int)> {
    Set::new(
        |at: (int, int)|
            at.0 == i && 0 <= at.1 && at.1 + 1 < n && cut[i][at.1] == p.0 && cut[i][at.1 + 1]
                == p.1,
    )
}

/// The weight of a pair in one word is its number of places, times the frequency.
proof fn lemma_word_places(cut: Seq<Seq<Seq<char>>>, p: Pair, i: int, n: int)
    requires
        0 <= i < cut.len(),
        0 <= n <= cut[i].len(),
    ensures
        word_places(cut, p, i, n).finite(),
        word_places(cut, p, i, n).len() == pairs::pair_weight(cut[i].take(n), 1, p),
    decreases n,
{
    let symbols = cut[i].take(n);
    if n < 2 {
        assert(word_places(cut, p, i, n) =~= Set::empty());
    } else {
        lemma_word_places(cut, p, i, n - 1);
        assert(symbols.drop_last() =~= cut[i].take(n - 1));
        let before = word_places(cut, p, i, n - 1);
        if pairs::pair_at(symbols, n - 2) == p {
            assert(word_places(cut, p, i, n) =~= before.insert((i, n - 2)));
        } else {
            assert(word_places(cut, p, i, n) =~= before);
        }
    }
}

/// The number of places of a pair in a list of words, word by word.
spec fn place_total(cut: Seq<Seq<Seq<char>>>, p: Pair) -> nat
    decreases cut.len(),
{
    if cut.len() == 0 {
        0
    } else {
        place_total(cut.drop_last(), p) + pairs::pair_weight(cut.last(), 1, p)
    }
}

proof fn lemma_place_total(cut: Seq<Seq<Seq<char>>>, p: Pair)
    ensures
        places(cut, p).finite(),
        places(cut, p).len() == place_total(cut, p),
    decreases cut.len(),
{
    if cut.len() == 0 {
        assert(places(cut, p) =~= Set::empty());
    } else {
        let shorter = cut.drop_last();
        let i = cut.len() - 1;
        let n = cut[i].len() as int;
        lemma_place_total(shorter, p);
        lemma_word_places(cut, p, i, n);
        assert(cut[i].take(n) =~= cut[i]);
        let before = places(shorter, p);
        let last = word_places(cut, p, i, n);
        assert(places(cut, p) =~= before.union(last));
        assert(before.disjoint(last));
        vstd::set_lib::lemma_set_disjoint_lens(before, last);
    }
}

/// A word taken `freq` times weighs `freq` times as much.
proof fn lemma_weight_times(symbols: Seq<Seq<char>>, freq: nat, p: Pair)
    ensures
        pairs::pair_weight(symbols, freq, p) == freq * pairs::pair_weight(symbols, 1, p),
    decreases symbols.len(),
{
    if symbols.len() < 2 {
        assert(freq * 0 == 0) by (nonlinear_arith);
    } else {
        lemma_weight_times(symbols.drop_last(), freq, p);
        let before = pairs::pair_weight(symbols.drop_last(), 1, p);
        assert(freq * (before + 1) == freq * before + freq) by (nonlinear_arith);
    }
}

/// The weight of the first `k` different words.
spec fn weight_of_first(
    list: Seq<Seq<char>>,
    different: Seq<Seq<char>>,
    split: spec_fn(Seq<char>) -> Seq<Seq<char>>,
    p: Pair,
    k: int,
) -> nat
    decreases k,
{
    if k <= 0 {
        0
    } else {
        weight_of_first(list, different, split, p, k - 1) + word_freq::occurrences(
            list,
            different[k - 1],
        ) * pairs::pair_weight(split(different[k - 1]), 1, p)
    }
}

/// One more occurrence of a word adds the weight of the word.
proof fn lemma_one_more_word(
    list: Seq<Seq<char>>,
    w: Seq<char>,
    different: Seq<Seq<char>>,
    split: spec_fn(Seq<char>) -> Seq<Seq<char>>,
    p: Pair,
    k: int,
)
    requires
        0 <= k <= different.len(),
        different.no_duplicates(),
    ensures
        weight_of_first(list.push(w), different, split, p, k) == weight_of_first(
            list,
            different,
            split,
            p,
            k,
        ) + (if different.take(k).contains(w) {
            pairs::pair_weight(split(w), 1, p)
        } else {
            0
        }),
    decreases k,
{
    if k > 0 {
        lemma_one_more_word(list, w, different, split, p, k - 1);
        let last = different[k - 1];
        let n = word_freq::occurrences(list, last);
        let weight = pairs::pair_weight(split(last), 1, p);
        assert(list.push(w).drop_last() =~= list);
        assert(different.take(k) =~= different.take(k - 1).push(last));
        assert((n + 1) * weight == n * weight + weight) by (nonlinear_arith);
        if last == w {
            assert(different.take(k)[k - 1] == w);
            if different.take(k - 1).contains(w) {
                let i = choose|i: int| 0 <= i < k - 1 && #[trigger] different.take(k - 1)[i] == w;
                assert(different[i] == different[k - 1]);
            }
        } else {
            if different.take(k).contains(w) {
                let i = choose|i: int| 0 <= i < k && #[trigger] different.take(k)[i] == w;
                assert(different.take(k - 1)[i] == w);
            }
            if different.take(k - 1).contains(w) {
                let i = choose|i: int| 0 <= i < k - 1 && #[trigger] different.take(k - 1)[i] == w;
                assert(different.take(k)[i] == w);
            }
        }
    }
}

/// What further different words do not change.
proof fn lemma_weight_of_prefix(
    list: Seq<Seq<char>>,
    a: Seq<Seq<char>>,
    b: Seq<Seq<char>>,
    split: spec_fn(Seq<char>) -> Seq<Seq<char>>,
    p: Pair,
    k: int,
)
    requires
        0 <= k <= a.len(),
        a.is_prefix_of(b),
    ensures
        weight_of_first(list, a, split, p, k) == weight_of_first(list, b, split, p, k),
    decreases k,
{
    if k > 0 {
        lemma_weight_of_prefix(list, a, b, split, p, k - 1);
        assert(a[k - 1] == b[k - 1]);
    }
}

/// The weights of the different words together are the places in the whole list.
proof fn lemma_weights_are_places(
    list: Seq<Seq<char>>,
    split: spec_fn(Seq<char>) -> Seq<Seq<char>>,
    p: Pair,
)
    ensures
        weight_of_first(
            list,
            word_freq::distinct(list),
            split,
            p,
            word_freq::distinct(list).len() as int,
        ) == place_total(list.map_values(split), p),
    decreases list.len(),
{
    let cut = list.map_values(split);
    if list.len() > 0 {
        let shorter = list.drop_last();
        let w = list.last();
        let before = word_freq::distinct(shorter);
        let after = word_freq::distinct(list);
        let n = before.len() as int;
        lemma_weights_are_places(shorter, split, p);
        word_freq::lemma_distinct(shorter);
        word_freq::lemma_distinct(list);
        assert(shorter.push(w) =~= list);
        assert(cut.drop_last() =~= shorter.map_values(split));
        assert(cut.last() == split(w));
        lemma_one_more_word(shorter, w, after, split, p, n);
        assert(before =~= after.take(n));
        lemma_weight_of_prefix(shorter, before, after, split, p, n);
        if !before.contains(w) {
            assert(after[n] == w);
            word_freq::lemma_occurrences_bounded(shorter, w);
            assert(word_freq::occurrences(list, w) == 1);
            assert(1 * pairs::pair_weight(split(w), 1, p) == pairs::pair_weight(split(w), 1, p))
                by (nonlinear_arith);
        }
    }
}

/// The frequency over the different words, each with its occurrences, is the weight
/// of them all.
proof fn lemma_frequency_is_weight(
    list: Seq<Seq<char>>,
    split: spec_fn(Seq<char>) -> Seq<Seq<char>>,
    words: Seq<Word>,
    p: Pair,
    k: int,
)
    requires
        0 <= k <= words.len() == word_freq::distinct(list).len(),
        forall|i: int|
            0 <= i < words.len() ==> (#[trigger] words[i]).symbols == split(
                word_freq::distinct(list)[i],
            ) && words[i].freq == word_freq::occurrences(list, word_freq::distinct(list)[i]),
    ensures
        pairs::frequency(words.take(k), p) == weight_of_first(
            list,
            word_freq::distinct(list),
            split,
            p,
            k,
        ),
    decreases k,
{
    if k > 0 {
        lemma_frequency_is_weight(list, split, words, p, k - 1);
        assert(words.take(k).drop_last() =~= words.take(k - 1));
        let w = words[k - 1];
        assert(w.symbols == split(word_freq::distinct(list)[k - 1]));
        lemma_weight_times(w.symbols, w.freq, p);
    }
}

/// A pair that occurs has a place, and the other way round.
proof fn lemma_occurs_at_a_place(words: Seq<Word>, cut: Seq<Seq<Seq<char>>>, p: Pair)
    requires
        forall|i: int|
            0 <= i < words.len() ==> cut.contains((#[trigger] words[i]).symbols),
        forall|i: int|
            0 <= i < cut.len() ==> exists|j: int|
                0 <= j < words.len() && (#[trigger] words[j]).symbols == #[trigger] cut[i],
    ensures
        pairs::occurs(words, p) <==> places(cut, p).len() > 0,
{
    lemma_place_total(cut, p);
    if pairs::occurs(words, p) {
        let w = choose|w: int|
            0 <= w < words.len() && pairs::has_pair(#[trigger] words[w].symbols, p);
        let k = choose|k: int|
            0 <= k < words[w].symbols.len() - 1 && #[trigger] pairs::pair_at(words[w].symbols, k)
                == p;
        assert(cut.contains(words[w].symbols));
        let i = choose|i: int| 0 <= i < cut.len() && cut[i] == words[w].symbols;
        assert(places(cut, p).contains((i, k)));
        if places(cut, p).len() == 0 {
            places(cut, p).lemma_len0_is_empty();
        }
    }
    if places(cut, p).len() > 0 {
        if places(cut, p) =~= Set::empty() {
            assert(false);
        }
        let at = choose|at: (int, int)| places(cut, p).contains(at);
        let j = choose|j: int|
            0 <= j < words.len() && (#[trigger] words[j]).symbols == cut[at.0];
        assert(pairs::pair_at(words[j].symbols, at.1) == p);
        assert(pairs::has_pair(words[j].symbols, p));
    }
}

/// For any list of words, however they are cut, the frequency of a pair over the
/// different words, each weighted by its occurrences, is the number of places at
/// which the pair stands in the whole list. Words that occur more often count more.
pub proof fn law_frequency_counts_every_place(
    list: Seq<Seq<char>>,
    split: spec_fn(Seq<char>) -> Seq<Seq<char>>,
    words: Seq<Word>,
    p: Pair,
)
    requires
        words.len() == word_freq::distinct(list).len(),
        forall|i: int|
            0 <= i < words.len() ==> (#[trigger] words[i]).symbols == split(
                word_freq::distinct(list)[i],
            ) && words[i].freq == word_freq::occurrences(list, word_freq::distinct(list)[i]),
    ensures
        places(list.map_values(split), p).finite(),
        pairs::frequency(words, p) == places(list.map_values(split), p).len(),
        pairs::occurs(words, p) <==> places(list.map_values(split), p).len() > 0,
{
    let cut = list.map_values(split);
    let different = word_freq::distinct(list);
    let n = words.len() as int;
    lemma_place_total(cut, p);
    lemma_weights_are_places(list, split, p);
    lemma_frequency_is_weight(list, split, words, p, n);
    assert(words.take(n) =~= words);
    word_freq::lemma_distinct(list);
    assert forall|i: int| 0 <= i < words.len() implies cut.contains((#[trigger] words[i]).symbols) by {
        assert(list.contains(different[i]));
        let j = choose|j: int| 0 <= j < list.len() && list[j] == different[i];
        assert(cut[j] == words[i].symbols);
    }
    assert forall|i: int| 0 <= i < cut.len() implies exists|j: int|
        0 <= j < words.len() && (#[trigger] words[j]).symbols == #[trigger] cut[i] by {
        assert(list.contains(list[i]));
        assert(different.contains(list[i]));
        let j = choose|j: int| 0 <= j < different.len() && different[j] == list[i];
        assert(words[j].symbols == cut[i]);
    }
    lemma_occurs_at_a_place(words, cut, p);
}

/// Merging keeps the frequencies of words.
proof fn lemma_merging_keeps_frequencies(words: Seq<Word>, list: Seq<Pair>)
    ensures
        merges::words_after(words, list).len() == words.len(),
        forall|i: int|
            0 <= i < words.len() ==> (#[trigger] merges::words_after(words, list)[i]).freq
                == words[i].freq,
    decreases list.len(),
{
    if list.len() > 0 {
        let before = merges::words_after(words, list.drop_last());
        let after = merges::words_after(words, list);
        lemma_merging_keeps_frequencies(words, list.drop_last());
        assert forall|i: int| 0 <= i < words.len() implies (#[trigger] after[i]).freq
            == words[i].freq by {
            assert(before[i].freq == words[i].freq);
        }
    }
}

/// Every learned merge joins a pair that stands at the most places in the whole list
/// of words, cut by the merges before it.
pub proof fn law_learned_pairs_stand_most_places(
    list: Seq<Seq<char>>,
    split: spec_fn(Seq<char>) -> Seq<Seq<char>>,
    words: Seq<Word>,
    before: Seq<Seq<char>>,
    run: Seq<Pair>,
    after: Seq<Seq<char>>,
    size: nat,
    k: int,
)
    requires
        words.len() == word_freq::distinct(list).len(),
        forall|i: int|
            0 <= i < words.len() ==> (#[trigger] words[i]).symbols == split(
                word_freq::distinct(list)[i],
            ) && words[i].freq == word_freq::occurrences(list, word_freq::distinct(list)[i]),
        merges::learned(words, before, run, after, size),
        0 <= k < run.len(),
    ensures
        most_places(
            list.map_values(|w: Seq<char>| merge_laws::merged_in_turn(split(w), run.take(k))),
            run[k],
        ),
{
    let done = run.take(k);
    let cutting = |w: Seq<char>| merge_laws::merged_in_turn(split(w), done);
    let state = merges::words_after(words, done);
    let cut = list.map_values(cutting);
    let p = run[k];
    assert(pairs::most_frequent(state, p));
    merge_laws::lemma_words_in_turn(words, done);
    lemma_merging_keeps_frequencies(words, done);
    assert forall|i: int| 0 <= i < state.len() implies (#[trigger] state[i]).symbols == cutting(
        word_freq::distinct(list)[i],
    ) && state[i].freq == word_freq::occurrences(list, word_freq::distinct(list)[i]) by {
        assert(words[i].freq == word_freq::occurrences(list, word_freq::distinct(list)[i]));
    }
    law_frequency_counts_every_place(list, cutting, state, p);
    assert forall|q: Pair|
        (#[trigger] places(cut, q)).len() <= places(cut, p).len() || places(cut, p).len()
            >= usize::MAX by {
        law_frequency_counts_every_place(list, cutting, state, q);
    }
}

/// Byte-level training joins, at each step, a pair that stands at the most places in
/// all words of the corpus, counted with repetition.
pub proof fn law_bpe_training_joins_the_most_frequent(
    corpus: Seq<&str>,
    run: Seq<Pair>,
    after: Seq<Seq<char>>,
    size: nat,
    k: int,
)
    requires
        merges::learned(
            bpe_tokenizer::weighted_words(bpe_tokenizer::corpus_words(corpus)),
            bpe_tokenizer::initial_tokens(),
            run,
            after,
            size,
        ),
        0 <= k < run.len(),
    ensures
        most_places(
            bpe_tokenizer::corpus_words(corpus).map_values(
                |w: Seq<char>|
                    merge_laws::merged_in_turn(
                        bpe_tokenizer::byte_symbols(vstd::utf8::encode_utf8(w)),
                        run.take(k),
                    ),
            ),
            run[k],
        ),
{
    let list = bpe_tokenizer::corpus_words(corpus);
    let split = |w: Seq<char>| bpe_tokenizer::byte_symbols(vstd::utf8::encode_utf8(w));
    law_learned_pairs_stand_most_places(
        list,
        split,
        bpe_tokenizer::weighted_words(list),
        bpe_tokenizer::initial_tokens(),
        run,
        after,
        size,
        k,
    );
    assert(list.map_values(|w: Seq<char>| merge_laws::merged_in_turn(split(w), run.take(k)))
        =~= list.map_values(
        |w: Seq<char>|
            merge_laws::merged_in_turn(
                bpe_tokenizer::byte_symbols(vstd::utf8::encode_utf8(w)),
                run.take(k),
            ),
    ));
}

/// Training on characters joins, at each step, a pair that stands at the most places
/// in the words of the text, counted with repetition.
pub proof fn law_char_training_joins_the_most_frequent(
    merge_text: Seq<char>,
    before: Seq<Seq<char>>,
    run: Seq<Pair>,
    after: Seq<Seq<char>>,
    size: nat,
    k: int,
)
    requires
        merges::learned(char_bpe_tokenizer::char_words(merge_text), before, run, after, size),
        0 <= k < run.len(),
    ensures
        most_places(
            char_bpe_tokenizer::pretokens(merge_text).map_values(
                |w: Seq<char>|
                    merge_laws::merged_in_turn(
                        Seq::new(w.len(), |i: int| seq![w[i]]),
                        run.take(k),
                    ),
            ),
            run[k],
        ),
{
    let list = char_bpe_tokenizer::pretokens(merge_text);
    let split = |w: Seq<char>| text::singletons(w);
    law_learned_pairs_stand_most_places(
        list,
        split,
        char_bpe_tokenizer::char_words(merge_text),
        before,
        run,
        after,
        size,
        k,
    );
    let stated = list.map_values(
        |w: Seq<char>|
            merge_laws::merged_in_turn(Seq::new(w.len(), |i: int| seq![w[i]]), run.take(k)),
    );
    let shown = list.map_values(|w: Seq<char>| merge_laws::merged_in_turn(split(w), run.take(k)));
    assert forall|j: int| 0 <= j < list.len() implies stated[j] == shown[j] by {
        let w = list[j];
        assert(Seq::new(w.len(), |i: int| seq![w[i]]) =~= text::singletons(w));
    }
    assert(stated =~= shown);
}

/// Extending a tokenizer joins, at each step, a pair that stands at the most places
/// in the words of the text, counted with repetition, as the tokenizer and the steps
/// before have cut them.
pub proof fn law_extending_joins_the_most_frequent(
    m: CharBpeModel,
    n: CharBpeModel,
    additional: Seq<char>,
    size: nat,
    run: Seq<Pair>,
    k: int,
)
    requires
        m.extends_by(n, additional, size, run),
        0 <= k < run.len(),
    ensures
        most_places(
            char_bpe_tokenizer::pretokens(additional).map_values(
                |w: Seq<char>| merge_laws::merged_in_turn(m.encode_word(w), run.take(k)),
            ),
            run[k],
        ),
{
    let list = char_bpe_tokenizer::pretokens(additional);
    let split = |w: Seq<char>| m.encode_word(w);
    let words = m.subwords(additional);
    law_learned_pairs_stand_most_places(
        list,
        split,
        words,
        m.with_symbols(words),
        run,
        n.tokens,
        size,
        k,
    );
    assert(list.map_values(|w: Seq<char>| merge_laws::merged_in_turn(split(w), run.take(k)))
        =~= list.map_values(
        |w: Seq<char>| merge_laws::merged_in_turn(m.encode_word(w), run.take(k)),
    ));
}

/// `a` stands somewhere in the list, and `b` neither there nor before.
pub open spec fn stands_first(words: Seq<Seq<char>>, a: Seq<char>, b: Seq<char>) -> bool {
    exists|k: int|
        0 <= k < words.len() && #[trigger] words[k] == a && forall|m: int|
            0 <= m <= k ==> #[trigger] words[m] != b
}

/// How often a word stands in a list.
pub open spec fn copies(words: Seq<Seq<char>>, w: Seq<char>) -> nat {
    words.filter(|v: Seq<char>| v == w).len()
}

/// A tally lists every word of a text once, as often as it stands there, in the order in
/// which the words first come.
pub proof fn law_words_are_tallied(list: Seq<WordFreq>, words: Seq<Seq<char>>, w: Seq<char>)
    requires
        word_freq::tallies(list, words),
    ensures
        words.contains(w) <==> exists|i: int| 0 <= i < list.len() && (#[trigger] list[i]).word@ == w,
        forall|i: int|
            0 <= i < list.len() ==> (#[trigger] list[i]).freq == copies(words, list[i].word@),
        forall|i: int, j: int|
            0 <= i < j < list.len() ==> stands_first(
                words,
                (#[trigger] list[i]).word@,
                (#[trigger] list[j]).word@,
            ),
{
    let d = word_freq::distinct(words);
    word_freq::lemma_distinct(words);
    if words.contains(w) {
        let i = choose|i: int| 0 <= i < d.len() && d[i] == w;
        assert(list[i].word@ == d[i]);
    }
    assert forall|i: int| 0 <= i < list.len() && (#[trigger] list[i]).word@ == w implies d.contains(
        w,
    ) by {
        assert(d[i] == w);
    }
    assert forall|i: int| 0 <= i < list.len() implies (#[trigger] list[i]).freq == copies(
        words,
        list[i].word@,
    ) by {
        lemma_occurrences_are_places(words, list[i].word@);
    }
    assert forall|i: int, j: int| 0 <= i < j < list.len() implies stands_first(
        words,
        (#[trigger] list[i]).word@,
        (#[trigger] list[j]).word@,
    ) by {
        lemma_in_order_of_first_places(words, i, j);
    }
}

proof fn lemma_occurrences_are_places(words: Seq<Seq<char>>, w: Seq<char>)
    ensures
        word_freq::occurrences(words, w) == copies(words, w),
    decreases words.len(),
{
    reveal(Seq::filter);
    if words.len() > 0 {
        lemma_occurrences_are_places(words.drop_last(), w);
    }
}

proof fn lemma_in_order_of_first_places(words: Seq<Seq<char>>, i: int, j: int)
    requires
        0 <= i < j < word_freq::distinct(words).len(),
    ensures
        stands_first(words, word_freq::distinct(words)[i], word_freq::distinct(words)[j]),
    decreases words.len(),
{
    let shorter = words.drop_last();
    let last = words.last();
    let d = word_freq::distinct(shorter);
    if j < d.len() {
        lemma_in_order_of_first_places(shorter, i, j);
        let k = choose|k: int|
            0 <= k < shorter.len() && #[trigger] shorter[k] == d[i] && forall|m: int|
                0 <= m <= k ==> #[trigger] shorter[m] != d[j];
        assert(words[k] == d[i]);
        assert forall|m: int| 0 <= m <= k implies #[trigger] words[m] != d[j] by {
            assert(shorter[m] != d[j]);
        }
    } else {
        word_freq::lemma_distinct(shorter);
        assert(d.contains(d[i]));
        let k = choose|k: int| 0 <= k < shorter.len() && shorter[k] == d[i];
        assert(words[k] == d[i]);
        assert forall|m: int| 0 <= m <= k implies #[trigger] words[m] != last by {
            assert(shorter.contains(shorter[m]));
        }
    }
}

/// Pairs are counted at all their places in a text; a pair without a place is not counted.
/// Counting ends at what a count can hold.
pub proof fn law_pairs_are_counted_at_their_places(
    list: Seq<Seq<char>>,
    split: spec_fn(Seq<char>) -> Seq<Seq<char>>,
    words: Seq<Word>,
    p: Pair,
)
    requires
        words.len() == word_freq::distinct(list).len(),
        forall|i: int|
            0 <= i < words.len() ==> (#[trigger] words[i]).symbols == split(
                word_freq::distinct(list)[i],
            ) && words[i].freq == word_freq::occurrences(list, word_freq::distinct(list)[i]),
    ensures
        ({
            let n = places(list.map_values(split), p).len();
            &&& pairs::pair_counts(words).contains_key(p) <==> n > 0
            &&& 0 < n <= usize::MAX ==> pairs::pair_counts(words)[p] == n
            &&& n > usize::MAX ==> pairs::pair_counts(words)[p] == usize::MAX
        }),
{
    law_frequency_counts_every_place(list, split, words, p);
}

/// The pairs of two lists of words are counted together or apart, with the same counts.
pub proof fn law_counts_of_parts_add_up(a: Seq<Word>, b: Seq<Word>)
    ensures
        pairs::pair_counts(a + b) == pairs::sum_of(pairs::pair_counts(a), pairs::pair_counts(b)),
{
    pairs::lemma_counts_add_up(a, b);
}

} // verus!
