//! Byte-pair merging: learning merges from words and applying them.

use rayon::iter::{IntoParallelIterator, ParallelIterator};
use vstd::hash_map::StringHashMap;
use vstd::prelude::*;

use crate::pair_table::{Pair, PairTable};
use crate::pairs::{
    self, best_pair_in_parallel, count_pairs, count_pairs_in_parallel, PairCounts, Word, WordEntry,
};
use crate::text;

verus! {

/// The last position at which `x` stands in `s`.
pub open spec fn last_index<A>(s: Seq<A>, x: A) -> Option<int>
    decreases s.len(),
{
    if s.len() == 0 {
        None
    } else if s.last() == x {
        Some(s.len() - 1)
    } else {
        last_index(s.drop_last(), x)
    }
}

/// The contents of a list of merges.
pub open spec fn pairs_of(v: Seq<(String, String)>) -> Seq<Pair> {
    Seq::new(v.len(), |i: int| (v[i].0@, v[i].1@))
}

/// `index` finds every token of `tokens` under its last position.
pub open spec fn indexes_tokens(index: Map<Seq<char>, usize>, tokens: Seq<Seq<char>>) -> bool {
    forall|t: Seq<char>|
        #![trigger index.contains_key(t)]
        #![trigger last_index(tokens, t)]
        match last_index(tokens, t) {
            Some(i) => index.contains_key(t) && index[t] == i,
            None => !index.contains_key(t),
        }
}

/// `ranks` gives every pair of `merges` its last position.
pub open spec fn ranks_merges(ranks: Map<Pair, usize>, merges: Seq<Pair>) -> bool {
    forall|p: Pair|
        #![trigger ranks.contains_key(p)]
        #![trigger last_index(merges, p)]
        match last_index(merges, p) {
            Some(i) => ranks.contains_key(p) && ranks[p] == i,
            None => !ranks.contains_key(p),
        }
}

/// `symbols` with every `a` that is followed by `b` joined to it, taken from
/// the left.
pub open spec fn merge_pair(symbols: Seq<Seq<char>>, a: Seq<char>, b: Seq<char>) -> Seq<Seq<char>>
    decreases symbols.len(),
{
    if symbols.len() == 0 {
        Seq::empty()
    } else if symbols.len() >= 2 && symbols[0] == a && symbols[1] == b {
        seq![a + b] + merge_pair(symbols.skip(2), a, b)
    } else {
        seq![symbols[0]] + merge_pair(symbols.skip(1), a, b)
    }
}

/// The word with the pair merged.
pub open spec fn merge_word(w: Word, p: Pair) -> Word {
    Word { symbols: merge_pair(w.symbols, p.0, p.1), freq: w.freq }
}

/// All words with the pair merged.
pub open spec fn merge_words(words: Seq<Word>, p: Pair) -> Seq<Word> {
    Seq::new(words.len(), |i: int| merge_word(words[i], p))
}

/// All words with the pairs merged one after the other.
pub open spec fn words_after(words: Seq<Word>, merges: Seq<Pair>) -> Seq<Word>
    decreases merges.len(),
{
    if merges.len() == 0 {
        words
    } else {
        merge_words(words_after(words, merges.drop_last()), merges.last())
    }
}

/// `tokens` with `t` at its end, unless it is there already.
pub open spec fn registered(tokens: Seq<Seq<char>>, t: Seq<char>) -> Seq<Seq<char>> {
    if tokens.contains(t) {
        tokens
    } else {
        tokens.push(t)
    }
}

/// `tokens` with the texts of `list` registered one after the other.
pub open spec fn registered_all(tokens: Seq<Seq<char>>, list: Seq<Seq<char>>) -> Seq<Seq<char>>
    decreases list.len(),
{
    if list.len() == 0 {
        tokens
    } else {
        registered(registered_all(tokens, list.drop_last()), list.last())
    }
}

/// `tokens` with the joined pairs registered one after the other.
pub open spec fn tokens_after(tokens: Seq<Seq<char>>, merges: Seq<Pair>) -> Seq<Seq<char>>
    decreases merges.len(),
{
    if merges.len() == 0 {
        tokens
    } else {
        registered(tokens_after(tokens, merges.drop_last()), merges.last().0 + merges.last().1)
    }
}

/// `new` is a run of merges learned on `words` that starts from the vocabulary
/// `before` and ends with the vocabulary `after`.
///
/// Each merge joins a most frequent pair of the words as the merges before it
/// left them, and registers the joined token. A merge is learned only while the
/// vocabulary is smaller than `size`, and the run ends only when it no longer
/// is or when no word has two symbols left.
pub open spec fn learned(
    words: Seq<Word>,
    before: Seq<Seq<char>>,
    new: Seq<Pair>,
    after: Seq<Seq<char>>,
    size: nat,
) -> bool {
    &&& after == tokens_after(before, new)
    &&& forall|k: int|
        0 <= k < new.len() ==> tokens_after(before, #[trigger] new.take(k)).len() < size
            && pairs::most_frequent(words_after(words, new.take(k)), new[k])
    &&& after.len() >= size || forall|p: Pair| !pairs::occurs(words_after(words, new), p)
}

/// `list` with the pairs of `run` behind it that `list` does not hold: a pair that
/// was merged before keeps its rank.
pub open spec fn appended(list: Seq<Pair>, run: Seq<Pair>) -> Seq<Pair>
    decreases run.len(),
{
    if run.len() == 0 {
        list
    } else if list.contains(run.last()) {
        appended(list, run.drop_last())
    } else {
        appended(list, run.drop_last()).push(run.last())
    }
}

/// What is appended leaves every pair of the list in its place and at its rank, and
/// repeats none of them.
pub proof fn lemma_appended(list: Seq<Pair>, run: Seq<Pair>)
    ensures
        list.is_prefix_of(appended(list, run)),
        forall|p: Pair|
            list.contains(p) ==> #[trigger] last_index(appended(list, run), p) == last_index(
                list,
                p,
            ),
        forall|k: int|
            list.len() <= k < appended(list, run).len() ==> !list.contains(
                #[trigger] appended(list, run)[k],
            ) && run.contains(appended(list, run)[k]),
    decreases run.len(),
{
    if run.len() > 0 {
        let shorter = run.drop_last();
        let before = appended(list, shorter);
        let after = appended(list, run);
        lemma_appended(list, shorter);
        if !list.contains(run.last()) {
            assert(after.drop_last() =~= before);
            assert(list =~= after.take(list.len() as int));
        }
        assert forall|p: Pair| list.contains(p) implies #[trigger] last_index(after, p)
            == last_index(list, p) by {
            assert(last_index(before, p) == last_index(list, p));
        }
        assert forall|k: int| list.len() <= k < after.len() implies !list.contains(
            #[trigger] after[k],
        ) && run.contains(after[k]) by {
            if k < before.len() {
                assert(after[k] == before[k]);
                let j = choose|j: int| 0 <= j < shorter.len() && shorter[j] == before[k];
                assert(run[j] == after[k]);
            } else {
                assert(run[run.len() - 1] == after[k]);
            }
        }
    } else {
        assert(list =~= appended(list, run).take(list.len() as int));
    }
}

/// A run that meets no pair of the list is appended whole.
pub proof fn lemma_appended_whole(list: Seq<Pair>, run: Seq<Pair>)
    requires
        forall|k: int| 0 <= k < run.len() ==> !list.contains(#[trigger] run[k]),
    ensures
        appended(list, run) == list + run,
    decreases run.len(),
{
    if run.len() > 0 {
        let shorter = run.drop_last();
        assert forall|k: int| 0 <= k < shorter.len() implies !list.contains(
            #[trigger] shorter[k],
        ) by {
            assert(shorter[k] == run[k]);
        }
        lemma_appended_whole(list, shorter);
        assert(run.last() == run[run.len() - 1]);
        assert(appended(list, run) =~= list + run);
    } else {
        assert(appended(list, run) =~= list + run);
    }
}

/// Joins every `a` that is followed by `b`, from the left.
fn merge_symbols(symbols: &Vec<String>, a: &String, b: &String) -> (r: Vec<String>)
    ensures
        text::texts(r@) == merge_pair(text::texts(symbols@), a@, b@),
{
    let ghost all = text::texts(symbols@);
    let n: usize = symbols.len();
    let mut r: Vec<String> = Vec::new();
    let mut i: usize = 0;
    assert(all.skip(0) =~= all);
    assert(text::texts(r@) + merge_pair(all.skip(0), a@, b@) =~= merge_pair(all, a@, b@));
    while i < n
        invariant
            i <= n == symbols@.len(),
            all == text::texts(symbols@),
            text::texts(r@) + merge_pair(all.skip(i as int), a@, b@) == merge_pair(all, a@, b@),
        decreases n - i,
    {
        let ghost before = r@;
        let ghost rest = all.skip(i as int);
        if n - i >= 2 && symbols[i].eq(a) && symbols[i + 1].eq(b) {
            let joined: String = a.clone().concat(b.as_str());
            r.push(joined);
            proof {
                assert(rest.skip(2) =~= all.skip(i + 2));
                assert(text::texts(r@) =~= text::texts(before) + seq![a@ + b@]);
                assert(text::texts(r@) + merge_pair(rest.skip(2), a@, b@) =~= text::texts(before) + (seq![
                    a@ + b@,
                ] + merge_pair(rest.skip(2), a@, b@)));
            }
            i += 2;
        } else {
            r.push(symbols[i].clone());
            proof {
                assert(rest.skip(1) =~= all.skip(i + 1));
                assert(text::texts(r@) =~= text::texts(before) + seq![rest[0]]);
                assert(text::texts(r@) + merge_pair(rest.skip(1), a@, b@) =~= text::texts(before) + (seq![
                    rest[0],
                ] + merge_pair(rest.skip(1), a@, b@)));
            }
            i += 1;
        }
    }
    assert(merge_pair(all.skip(i as int), a@, b@) =~= Seq::empty());
    assert(text::texts(r@) =~= merge_pair(all, a@, b@));
    r
}

/// Merges the pair in one word.
fn merge_entry(word: WordEntry, a: &String, b: &String) -> (r: WordEntry)
    ensures
        r@ == merge_word(word@, (a@, b@)),
{
    WordEntry { symbols: merge_symbols(&word.symbols, a, b), freq: word.freq }
}

/// Merges the pair in every word.
fn merge_vocab(words: Vec<WordEntry>, a: &String, b: &String) -> (r: Vec<WordEntry>)
    ensures
        pairs::words_of(r@) == merge_words(pairs::words_of(words@), (a@, b@)),
{
    let mut r: Vec<WordEntry> = Vec::new();
    let mut i: usize = 0;
    while i < words.len()
        invariant
            i <= words@.len(),
            r@.len() == i,
            forall|j: int|
                0 <= j < i ==> #[trigger] r@[j]@ == merge_word(words@[j]@, (a@, b@)),
        decreases words@.len() - i,
    {
        let w: &WordEntry = &words[i];
        r.push(WordEntry { symbols: merge_symbols(&w.symbols, a, b), freq: w.freq });
        i += 1;
    }
    assert(pairs::words_of(r@) =~= merge_words(pairs::words_of(words@), (a@, b@)));
    r
}

/// Merges the pair in every word on rayon's thread pool.
///
/// `into_par_iter().map(..).collect()` into a `Vec` applies the function to
/// each item and keeps the items in their order. The function is `merge_entry`.
#[verifier::external_body]
fn merge_vocab_in_parallel(words: Vec<WordEntry>, a: &String, b: &String) -> (r: Vec<WordEntry>)
    ensures
        pairs::words_of(r@) == merge_words(pairs::words_of(words@), (a@, b@)),
{
    words.into_par_iter().map(|w| merge_entry(w, a, b)).collect()
}

/// `tokens.contains(t)` and `last_index` agree on whether `t` is there.
pub proof fn lemma_last_index<A>(s: Seq<A>, x: A)
    ensures
        s.contains(x) <==> last_index(s, x) is Some,
        last_index(s, x) matches Some(i) ==> 0 <= i < s.len() && s[i] == x && forall|j: int|
            i < j < s.len() ==> s[j] != x,
    decreases s.len(),
{
    if s.len() > 0 {
        lemma_last_index(s.drop_last(), x);
        if s.last() == x {
            assert(s[s.len() - 1] == x);
        } else {
            assert forall|j: int| 0 <= j < s.len() - 1 implies s[j] == s.drop_last()[j] by {}
            if s.contains(x) {
                let i = choose|i: int| 0 <= i < s.len() && s[i] == x;
                assert(s.drop_last()[i] == x);
            }
            if s.drop_last().contains(x) {
                let i = choose|i: int| 0 <= i < s.drop_last().len() && s.drop_last()[i] == x;
                assert(s[i] == x);
            }
        }
    }
}

/// Adds `token` to the vocabulary unless it is there already.
pub fn register(
    id_to_token: &mut Vec<String>,
    token_to_id: &mut StringHashMap<usize>,
    token: &str,
)
    requires
        indexes_tokens(old(token_to_id)@, text::texts(old(id_to_token)@)),
    ensures
        indexes_tokens(final(token_to_id)@, text::texts(final(id_to_token)@)),
        text::texts(final(id_to_token)@) == registered(text::texts(old(id_to_token)@), token@),
{
    let ghost before = text::texts(id_to_token@);
    proof {
        lemma_last_index(before, token@);
    }
    if !token_to_id.contains_key(token) {
        let id: usize = id_to_token.len();
        id_to_token.push(token.to_owned());
        token_to_id.insert(token.to_owned(), id);
        assert(text::texts(id_to_token@) =~= before.push(token@));
        assert(before.push(token@).drop_last() =~= before);
    }
}

/// The number of symbols in all words.
spec fn symbol_total(words: Seq<Word>) -> nat
    decreases words.len(),
{
    if words.len() == 0 {
        0
    } else {
        symbol_total(words.drop_last()) + words.last().symbols.len()
    }
}

/// Merging never lengthens a word, and shortens one that holds the pair.
proof fn lemma_merge_shortens(symbols: Seq<Seq<char>>, a: Seq<char>, b: Seq<char>)
    ensures
        merge_pair(symbols, a, b).len() <= symbols.len(),
        pairs::has_pair(symbols, (a, b)) ==> merge_pair(symbols, a, b).len() < symbols.len(),
    decreases symbols.len(),
{
    if symbols.len() > 0 {
        if symbols.len() >= 2 && symbols[0] == a && symbols[1] == b {
            lemma_merge_shortens(symbols.skip(2), a, b);
        } else {
            let rest = symbols.skip(1);
            lemma_merge_shortens(rest, a, b);
            if pairs::has_pair(symbols, (a, b)) {
                let i = choose|i: int|
                    0 <= i < symbols.len() - 1 && #[trigger] pairs::pair_at(symbols, i) == (a, b);
                assert(pairs::pair_at(rest, i - 1) == (a, b));
            }
        }
    }
}

/// Merging a pair that occurs leaves fewer symbols.
proof fn lemma_merge_makes_progress(words: Seq<Word>, p: Pair)
    ensures
        symbol_total(merge_words(words, p)) <= symbol_total(words),
        pairs::occurs(words, p) ==> symbol_total(merge_words(words, p)) < symbol_total(words),
    decreases words.len(),
{
    if words.len() > 0 {
        let shorter = words.drop_last();
        lemma_merge_makes_progress(shorter, p);
        lemma_merge_shortens(words.last().symbols, p.0, p.1);
        assert(merge_words(words, p).drop_last() =~= merge_words(shorter, p));
        if pairs::occurs(words, p) {
            let i = choose|i: int|
                0 <= i < words.len() && pairs::has_pair(#[trigger] words[i].symbols, p);
            if i < shorter.len() {
                assert(pairs::has_pair(shorter[i].symbols, p));
            }
        }
    }
}

/// One more merge has the last rank.
proof fn lemma_ranks_push(ranks: Map<Pair, usize>, merges: Seq<Pair>, p: Pair, rank: usize)
    requires
        ranks_merges(ranks, merges),
        rank == merges.len(),
    ensures
        ranks_merges(ranks.insert(p, rank), merges.push(p)),
{
    let after = ranks.insert(p, rank);
    assert(merges.push(p).drop_last() =~= merges);
    assert forall|q: Pair|
        #![trigger after.contains_key(q)]
        #![trigger last_index(merges.push(p), q)]
        match last_index(merges.push(p), q) {
            Some(i) => after.contains_key(q) && after[q] == i,
            None => !after.contains_key(q),
        } by {
        assert(ranks.contains_key(q) == last_index(merges, q) is Some);
    }
}

/// Learns merges on `words` until the vocabulary holds `vocab_size` tokens or
/// no word has two symbols left. With `parallel` the work on the words is
/// spread over rayon's thread pool.
///
/// A pair that is in `merges` already keeps its rank, should it be met again. The
/// run of all pairs merged is returned.
pub fn learn_merges(
    id_to_token: &mut Vec<String>,
    token_to_id: &mut StringHashMap<usize>,
    merges: &mut Vec<(String, String)>,
    merge_rank: &mut PairTable,
    words: Vec<WordEntry>,
    vocab_size: usize,
    parallel: bool,
) -> (run: Ghost<Seq<Pair>>)
    requires
        indexes_tokens(old(token_to_id)@, text::texts(old(id_to_token)@)),
        old(merge_rank).wf(),
        ranks_merges(old(merge_rank)@, pairs_of(old(merges)@)),
    ensures
        indexes_tokens(final(token_to_id)@, text::texts(final(id_to_token)@)),
        final(merge_rank).wf(),
        ranks_merges(final(merge_rank)@, pairs_of(final(merges)@)),
        pairs_of(final(merges)@) == appended(pairs_of(old(merges)@), run@),
        learned(
            pairs::words_of(words@),
            text::texts(old(id_to_token)@),
            run@,
            text::texts(final(id_to_token)@),
            vocab_size as nat,
        ),
{
    let ghost words0 = pairs::words_of(words@);
    let ghost tokens0 = text::texts(id_to_token@);
    let ghost merges0 = pairs_of(merges@);
    let ghost mut new: Seq<Pair> = Seq::empty();
    let mut words: Vec<WordEntry> = words;
    let start: usize = merges.len();
    while id_to_token.len() < vocab_size
        invariant
            indexes_tokens(token_to_id@, text::texts(id_to_token@)),
            merge_rank.wf(),
            ranks_merges(merge_rank@, pairs_of(merges@)),
            start == merges0.len(),
            pairs_of(merges@) == appended(merges0, new),
            pairs::words_of(words@) == words_after(words0, new),
            text::texts(id_to_token@) == tokens_after(tokens0, new),
            forall|k: int|
                0 <= k < new.len() ==> tokens_after(tokens0, #[trigger] new.take(k)).len()
                    < vocab_size && pairs::most_frequent(words_after(words0, new.take(k)), new[k]),
        ensures
            id_to_token@.len() >= vocab_size || forall|p: Pair|
                !pairs::occurs(words_after(words0, new), p),
        decreases symbol_total(pairs::words_of(words@)),
    {
        let ghost current = pairs::words_of(words@);
        let counts: PairCounts = if parallel {
            count_pairs_in_parallel(&words)
        } else {
            count_pairs(&words)
        };
        let best: Option<(String, String)> = if parallel {
            best_pair_in_parallel(&counts)
        } else {
            counts.best_pair()
        };
        match best {
            None => {
                assert forall|p: Pair| !pairs::occurs(current, p) by {
                    assert(!pairs::pair_counts(current).contains_key(p));
                }
                break ;
            },
            Some((a, b)) => {
                let ghost p = (a@, b@);
                proof {
                    pairs::lemma_highest_is_most_frequent(current, p);
                    lemma_merge_makes_progress(current, p);
                }
                let rank: usize = merges.len();
                let joined: String = a.clone().concat(b.as_str());
                let ghost merges_before = pairs_of(merges@);
                let ghost ranks_before = merge_rank@;
                let known: bool = match merge_rank.get(a.as_str(), b.as_str()) {
                    Some(r) => r < start,
                    None => false,
                };
                proof {
                    lemma_appended(merges0, new);
                    lemma_last_index(merges0, p);
                    lemma_last_index(merges_before, p);
                    assert(new.push(p).drop_last() =~= new);
                    assert(merges0 =~= merges_before.take(start as int));
                    if merges0.contains(p) {
                        assert(last_index(merges_before, p) == last_index(merges0, p));
                    } else if last_index(merges_before, p) is Some {
                        let i = last_index(merges_before, p)->0;
                        if i < start {
                            assert(merges0[i] == p);
                        }
                    }
                    assert(known == merges0.contains(p));
                }
                if !known {
                    merge_rank.insert(a.as_str(), b.as_str(), rank);
                    merges.push((a.clone(), b.clone()));
                    proof {
                        assert(pairs_of(merges@) =~= merges_before.push(p));
                        lemma_ranks_push(ranks_before, merges_before, p, rank);
                    }
                }
                register(id_to_token, token_to_id, joined.as_str());
                words = if parallel {
                    merge_vocab_in_parallel(words, &a, &b)
                } else {
                    merge_vocab(words, &a, &b)
                };
                proof {
                    let longer = new.push(p);
                    assert(longer.drop_last() =~= new);
                    assert forall|k: int| 0 <= k < longer.len() implies tokens_after(
                        tokens0,
                        #[trigger] longer.take(k),
                    ).len() < vocab_size && pairs::most_frequent(
                        words_after(words0, longer.take(k)),
                        longer[k],
                    ) by {
                        if k < new.len() {
                            assert(longer.take(k) =~= new.take(k));
                        } else {
                            assert(longer.take(k) =~= new);
                        }
                    }
                    new = longer;
                }
            },
        }
    }
    Ghost(new)
}

/// The rank of the pair that starts at position `i`, if it was ever merged.
pub open spec fn rank_at(symbols: Seq<Seq<char>>, merges: Seq<Pair>, i: int) -> Option<int> {
    last_index(merges, pairs::pair_at(symbols, i))
}

/// The pair at `i` has the lowest rank of all pairs in `symbols`, and no pair
/// to the left of it has the same.
pub open spec fn lowest_at(symbols: Seq<Seq<char>>, merges: Seq<Pair>, i: int) -> bool {
    &&& 0 <= i < symbols.len() - 1
    &&& rank_at(symbols, merges, i) is Some
    &&& forall|j: int|
        0 <= j < symbols.len() - 1 && (#[trigger] rank_at(symbols, merges, j)) is Some ==> {
            ||| rank_at(symbols, merges, i)->0 < rank_at(symbols, merges, j)->0
            ||| rank_at(symbols, merges, i)->0 == rank_at(symbols, merges, j)->0 && i <= j
        }
}

/// `symbols` with the two at `i` and `i + 1` joined.
pub open spec fn join_at(symbols: Seq<Seq<char>>, i: int) -> Seq<Seq<char>> {
    symbols.take(i) + seq![symbols[i] + symbols[i + 1]] + symbols.skip(i + 2)
}

/// `symbols` after joining the leftmost pair of lowest rank, again and again,
/// until no neighbours form a merged pair.
pub open spec fn apply_merges(symbols: Seq<Seq<char>>, merges: Seq<Pair>) -> Seq<Seq<char>>
    decreases symbols.len(),
{
    if exists|i: int| lowest_at(symbols, merges, i) {
        let i = choose|i: int| lowest_at(symbols, merges, i);
        apply_merges(join_at(symbols, i), merges)
    } else {
        symbols
    }
}

/// One step of `apply_merges` joins the pair at the one position that
/// `lowest_at` names.
pub proof fn lemma_apply_step(symbols: Seq<Seq<char>>, merges: Seq<Pair>, i: int)
    requires
        lowest_at(symbols, merges, i),
    ensures
        apply_merges(symbols, merges) == apply_merges(join_at(symbols, i), merges),
{
    let k = choose|k: int| lowest_at(symbols, merges, k);
    assert(rank_at(symbols, merges, k) is Some);
    assert(rank_at(symbols, merges, i) is Some);
}

/// Applies the merges to `symbols`, lowest rank first.
pub(crate) fn apply_merges_to(
    symbols: Vec<String>,
    merge_rank: &PairTable,
    Ghost(merges): Ghost<Seq<Pair>>,
) -> (r: Vec<String>)
    requires
        merge_rank.wf(),
        ranks_merges(merge_rank@, merges),
    ensures
        text::texts(r@) == apply_merges(text::texts(symbols@), merges),
{
    let ghost goal = apply_merges(text::texts(symbols@), merges);
    let mut r: Vec<String> = symbols;
    loop
        invariant
            merge_rank.wf(),
            ranks_merges(merge_rank@, merges),
            apply_merges(text::texts(r@), merges) == goal,
        ensures
            text::texts(r@) == goal,
        decreases r@.len(),
    {
        let ghost current = text::texts(r@);
        let mut best: Option<(usize, usize)> = None;
        let n: usize = r.len();
        let mut i: usize = 0;
        while n >= 2 && i < n - 1
            invariant
                n == r@.len(),
                i == 0 || i < n,
                current == text::texts(r@),
                merge_rank.wf(),
                ranks_merges(merge_rank@, merges),
                match best {
                    None => forall|j: int| 0 <= j < i ==> (#[trigger] rank_at(current, merges, j)) is None,
                    Some((at, rank)) => at < i && rank_at(current, merges, at as int) == Some(
                        rank as int,
                    ) && forall|j: int|
                        0 <= j < i && (#[trigger] rank_at(current, merges, j)) is Some ==> rank
                            < rank_at(current, merges, j)->0 || rank == rank_at(
                            current,
                            merges,
                            j,
                        )->0 && at <= j,
                },
            decreases n - i,
        {
            let rank: Option<usize> = merge_rank.get(r[i].as_str(), r[i + 1].as_str());
            assert(pairs::pair_at(current, i as int) == (r@[i as int]@, r@[i + 1]@));
            assert(rank_at(current, merges, i as int) == match rank {
                Some(k) => Some(k as int),
                None => None,
            });
            match rank {
                None => {},
                Some(k) => match best {
                    None => {
                        best = Some((i, k));
                    },
                    Some((_, low)) => {
                        if k < low {
                            best = Some((i, k));
                        }
                    },
                },
            }
            i += 1;
        }
        match best {
            None => {
                assert forall|j: int| !lowest_at(current, merges, j) by {
                    if lowest_at(current, merges, j) {
                        assert(rank_at(current, merges, j) is Some);
                    }
                }
                break ;
            },
            Some((at, _)) => {
                assert(lowest_at(current, merges, at as int));
                let joined: String = r[at].clone().concat(r[at + 1].as_str());
                let ghost before = r@;
                r.remove(at + 1);
                r.set(at, joined);
                proof {
                    assert(text::texts(r@) =~= join_at(current, at as int));
                    lemma_apply_step(current, merges, at as int);
                }
            },
        }
    }
    r
}

/// Merging cuts a word differently but does not change it.
pub proof fn lemma_merging_keeps_the_word(symbols: Seq<Seq<char>>, merges: Seq<Pair>)
    ensures
        text::joined(apply_merges(symbols, merges)) == text::joined(symbols),
    decreases symbols.len(),
{
    if exists|i: int| lowest_at(symbols, merges, i) {
        let i = choose|i: int| lowest_at(symbols, merges, i);
        let a = symbols[i];
        let b = symbols[i + 1];
        let left = symbols.take(i);
        let right = symbols.skip(i + 2);
        lemma_merging_keeps_the_word(join_at(symbols, i), merges);
        assert(symbols =~= left + seq![a] + seq![b] + right);
        text::lemma_joined_concat(left + seq![a] + seq![b], right);
        text::lemma_joined_concat(left + seq![a], seq![b]);
        text::lemma_joined_concat(left, seq![a]);
        text::lemma_joined_concat(left + seq![a + b], right);
        text::lemma_joined_concat(left, seq![a + b]);
        text::lemma_joined_one(a);
        text::lemma_joined_one(b);
        text::lemma_joined_one(a + b);
        assert(text::joined(join_at(symbols, i)) =~= text::joined(symbols));
    }
}

/// Merging is carried to the end: no neighbours of what it gives form a merged pair.
pub proof fn law_merging_leaves_no_merged_pair(symbols: Seq<Seq<char>>, merges: Seq<Pair>)
    ensures
        forall|i: int|
            0 <= i < apply_merges(symbols, merges).len() - 1 ==> !merges.contains(
                #[trigger] pairs::pair_at(apply_merges(symbols, merges), i),
            ),
    decreases symbols.len(),
{
    if exists|i: int| lowest_at(symbols, merges, i) {
        let i = choose|i: int| lowest_at(symbols, merges, i);
        law_merging_leaves_no_merged_pair(join_at(symbols, i), merges);
        assert(apply_merges(symbols, merges) == apply_merges(join_at(symbols, i), merges));
    } else {
        assert(apply_merges(symbols, merges) == symbols);
        assert forall|i: int| 0 <= i < symbols.len() - 1 implies !merges.contains(
            #[trigger] pairs::pair_at(symbols, i),
        ) by {
            lemma_last_index(merges, pairs::pair_at(symbols, i));
            if merges.contains(pairs::pair_at(symbols, i)) {
                lemma_some_lowest(symbols, merges, i, symbols.len() - 1);
            }
        }
    }
}

/// Where some pair was ever merged, one of them has the lowest rank.
proof fn lemma_some_lowest(symbols: Seq<Seq<char>>, merges: Seq<Pair>, i: int, n: int) -> (low: int)
    requires
        0 <= i < n <= symbols.len() - 1,
        rank_at(symbols, merges, i) is Some,
    ensures
        0 <= low < n,
        rank_at(symbols, merges, low) is Some,
        forall|j: int|
            0 <= j < n && (#[trigger] rank_at(symbols, merges, j)) is Some ==> {
                ||| rank_at(symbols, merges, low)->0 < rank_at(symbols, merges, j)->0
                ||| rank_at(symbols, merges, low)->0 == rank_at(symbols, merges, j)->0 && low <= j
            },
        n == symbols.len() - 1 ==> lowest_at(symbols, merges, low),
    decreases n,
{
    let last = n - 1;
    if exists|k: int| 0 <= k < last && (#[trigger] rank_at(symbols, merges, k)) is Some {
        let k = choose|k: int| 0 <= k < last && (#[trigger] rank_at(symbols, merges, k)) is Some;
        let low = lemma_some_lowest(symbols, merges, k, last);
        if rank_at(symbols, merges, last) is Some && rank_at(symbols, merges, last)->0 < rank_at(
            symbols,
            merges,
            low,
        )->0 {
            last
        } else {
            low
        }
    } else {
        assert(i == last);
        last
    }
}

/// Every merged pair joins to a token.
pub open spec fn closed_under(tokens: Seq<Seq<char>>, merges: Seq<Pair>) -> bool {
    forall|k: int|
        0 <= k < merges.len() ==> tokens.contains((#[trigger] merges[k]).0 + merges[k].1)
}

/// All symbols are tokens.
pub open spec fn all_known(tokens: Seq<Seq<char>>, symbols: Seq<Seq<char>>) -> bool {
    forall|k: int| 0 <= k < symbols.len() ==> tokens.contains(#[trigger] symbols[k])
}

/// Merging turns tokens into tokens.
pub proof fn lemma_merging_stays_in_the_vocabulary(
    tokens: Seq<Seq<char>>,
    symbols: Seq<Seq<char>>,
    merges: Seq<Pair>,
)
    requires
        closed_under(tokens, merges),
        all_known(tokens, symbols),
    ensures
        all_known(tokens, apply_merges(symbols, merges)),
    decreases symbols.len(),
{
    if exists|i: int| lowest_at(symbols, merges, i) {
        let i = choose|i: int| lowest_at(symbols, merges, i);
        let pair = pairs::pair_at(symbols, i);
        lemma_last_index(merges, pair);
        let k = rank_at(symbols, merges, i)->0;
        assert(merges[k] == pair);
        let next = join_at(symbols, i);
        assert forall|j: int| 0 <= j < next.len() implies tokens.contains(#[trigger] next[j]) by {
            if j < i {
                assert(next[j] == symbols[j]);
            } else if j > i {
                assert(next[j] == symbols[j + 1]);
            }
        }
        lemma_merging_stays_in_the_vocabulary(tokens, next, merges);
    }
}

/// Registering keeps what is there, in place, and repeats nothing.
pub proof fn lemma_registered(tokens: Seq<Seq<char>>, t: Seq<char>)
    ensures
        tokens.is_prefix_of(registered(tokens, t)),
        registered(tokens, t).contains(t),
        tokens.no_duplicates() ==> registered(tokens, t).no_duplicates(),
        forall|u: Seq<char>| tokens.contains(u) ==> registered(tokens, t).contains(u),
        forall|u: Seq<char>| registered(tokens, t).contains(u) ==> tokens.contains(u) || u == t,
        forall|u: Seq<char>|
            tokens.contains(u) ==> #[trigger] last_index(registered(tokens, t), u) == last_index(
                tokens,
                u,
            ),
{
    let after = registered(tokens, t);
    if !tokens.contains(t) {
        assert(after[tokens.len() as int] == t);
        assert(after.drop_last() =~= tokens);
        assert forall|u: Seq<char>| tokens.contains(u) implies after.contains(u) by {
            let i = choose|i: int| 0 <= i < tokens.len() && tokens[i] == u;
            assert(after[i] == u);
        }
        assert forall|u: Seq<char>| after.contains(u) implies tokens.contains(u) || u == t by {
            let i = choose|i: int| 0 <= i < after.len() && after[i] == u;
            if i < tokens.len() {
                assert(tokens[i] == u);
            }
        }
    }
}

/// Registering a list keeps what is there, in place, and repeats nothing.
pub proof fn lemma_registered_all(tokens: Seq<Seq<char>>, list: Seq<Seq<char>>)
    ensures
        tokens.is_prefix_of(registered_all(tokens, list)),
        all_known(registered_all(tokens, list), list),
        tokens.no_duplicates() ==> registered_all(tokens, list).no_duplicates(),
        forall|u: Seq<char>| tokens.contains(u) ==> registered_all(tokens, list).contains(u),
        forall|u: Seq<char>|
            tokens.contains(u) ==> #[trigger] last_index(registered_all(tokens, list), u)
                == last_index(tokens, u),
    decreases list.len(),
{
    if list.len() > 0 {
        let shorter = list.drop_last();
        let middle = registered_all(tokens, shorter);
        let after = registered_all(tokens, list);
        lemma_registered_all(tokens, shorter);
        lemma_registered(middle, list.last());
        assert forall|i: int| 0 <= i < tokens.len() implies tokens[i] == after[i] by {
            assert(tokens[i] == middle[i]);
        }
        assert forall|k: int| 0 <= k < list.len() implies after.contains(#[trigger] list[k]) by {
            if k < shorter.len() {
                assert(middle.contains(shorter[k]));
            }
        }
    }
}

/// Learning keeps what is there, in place, repeats nothing, and registers the
/// token of every merge.
pub proof fn lemma_tokens_after(tokens: Seq<Seq<char>>, merges: Seq<Pair>)
    ensures
        tokens.is_prefix_of(tokens_after(tokens, merges)),
        closed_under(tokens_after(tokens, merges), merges),
        tokens.no_duplicates() ==> tokens_after(tokens, merges).no_duplicates(),
        forall|u: Seq<char>| tokens.contains(u) ==> tokens_after(tokens, merges).contains(u),
        forall|u: Seq<char>|
            tokens.contains(u) ==> #[trigger] last_index(tokens_after(tokens, merges), u)
                == last_index(tokens, u),
    decreases merges.len(),
{
    if merges.len() > 0 {
        let shorter = merges.drop_last();
        let middle = tokens_after(tokens, shorter);
        let after = tokens_after(tokens, merges);
        let t = merges.last().0 + merges.last().1;
        lemma_tokens_after(tokens, shorter);
        lemma_registered(middle, t);
        assert forall|i: int| 0 <= i < tokens.len() implies tokens[i] == after[i] by {
            assert(tokens[i] == middle[i]);
        }
        assert forall|k: int| 0 <= k < merges.len() implies after.contains(
            (#[trigger] merges[k]).0 + merges[k].1,
        ) by {
            if k < shorter.len() {
                assert(shorter[k] == merges[k]);
            }
        }
    }
}

} // verus!
