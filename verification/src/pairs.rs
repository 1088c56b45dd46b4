//! Frequencies of adjacent symbol pairs in a weighted list of words.

use rayon::iter::{IntoParallelRefIterator, ParallelIterator};
use vstd::prelude::*;

use crate::pair_table::{Pair, PairTable};
use crate::text;

verus! {

/// A word split into symbols, with the number of times it occurs.
pub struct WordEntry {
    pub symbols: Vec<String>,
    pub freq: usize,
}

/// What a `WordEntry` stands for.
#[verifier::ext_equal]
pub struct Word {
    pub symbols: Seq<Seq<char>>,
    pub freq: nat,
}

impl View for WordEntry {
    type V = Word;

    open spec fn view(&self) -> Word {
        Word { symbols: text::texts(self.symbols@), freq: self.freq as nat }
    }
}

/// What a list of entries stands for.
pub open spec fn words_of(entries: Seq<WordEntry>) -> Seq<Word> {
    Seq::new(entries.len(), |i: int| entries[i]@)
}

/// A count limited to what a `usize` holds.
pub open spec fn capped(n: nat) -> nat {
    if n <= usize::MAX {
        n
    } else {
        usize::MAX as nat
    }
}

/// The pair of neighbours that starts at position `i`.
pub open spec fn pair_at(symbols: Seq<Seq<char>>, i: int) -> Pair {
    (symbols[i], symbols[i + 1])
}

/// Some two neighbours in `symbols` form the pair `p`.
pub open spec fn has_pair(symbols: Seq<Seq<char>>, p: Pair) -> bool {
    exists|i: int| 0 <= i < symbols.len() - 1 && #[trigger] pair_at(symbols, i) == p
}

/// `freq` for every position at which `p` stands in `symbols`.
pub open spec fn pair_weight(symbols: Seq<Seq<char>>, freq: nat, p: Pair) -> nat
    decreases symbols.len(),
{
    if symbols.len() < 2 {
        0
    } else {
        pair_weight(symbols.drop_last(), freq, p) + (if pair_at(symbols, symbols.len() - 2) == p {
            freq
        } else {
            0
        })
    }
}

/// Some word holds the pair `p`.
pub open spec fn occurs(words: Seq<Word>, p: Pair) -> bool {
    exists|i: int| 0 <= i < words.len() && has_pair(#[trigger] words[i].symbols, p)
}

/// How often `p` occurs in `words`, each word taken `freq` times.
pub open spec fn frequency(words: Seq<Word>, p: Pair) -> nat
    decreases words.len(),
{
    if words.len() == 0 {
        0
    } else {
        frequency(words.drop_last(), p) + pair_weight(words.last().symbols, words.last().freq, p)
    }
}

/// The pairs that occur in `words`, each with its frequency, which stops at
/// `usize::MAX`.
pub open spec fn pair_counts(words: Seq<Word>) -> Map<Pair, nat> {
    Map::new(|p: Pair| occurs(words, p), |p: Pair| capped(frequency(words, p)))
}

/// `p` occurs, and no pair occurs more often (counts stop at `usize::MAX`).
pub open spec fn most_frequent(words: Seq<Word>, p: Pair) -> bool {
    &&& occurs(words, p)
    &&& forall|q: Pair| #[trigger]
        occurs(words, q) ==> capped(frequency(words, q)) <= capped(frequency(words, p))
}

/// The count of `p`, zero where it is absent.
pub open spec fn count_in(m: Map<Pair, nat>, p: Pair) -> nat {
    if m.contains_key(p) {
        m[p]
    } else {
        0
    }
}

/// `m` with `n` more of the pair `p`.
pub open spec fn with_pair(m: Map<Pair, nat>, p: Pair, n: nat) -> Map<Pair, nat> {
    m.insert(p, capped(count_in(m, p) + n))
}

/// `m` with the pairs of one more word.
pub open spec fn with_word(m: Map<Pair, nat>, w: Word) -> Map<Pair, nat> {
    Map::new(
        |p: Pair| m.contains_key(p) || has_pair(w.symbols, p),
        |p: Pair| capped(count_in(m, p) + pair_weight(w.symbols, w.freq, p)),
    )
}

/// The counts of two tables taken together.
pub open spec fn sum_of(m: Map<Pair, nat>, n: Map<Pair, nat>) -> Map<Pair, nat> {
    Map::new(
        |p: Pair| m.contains_key(p) || n.contains_key(p),
        |p: Pair| capped(count_in(m, p) + count_in(n, p)),
    )
}

/// A counted pair.
pub struct PairCount {
    pub first: String,
    pub second: String,
    pub count: usize,
}

impl PairCount {
    pub open spec fn pair(&self) -> Pair {
        (self.first@, self.second@)
    }
}

/// A table of pair counts that can be walked.
pub struct PairCounts {
    entries: Vec<PairCount>,
    slot_of: PairTable,
}

impl View for PairCounts {
    type V = Map<Pair, nat>;

    closed spec fn view(&self) -> Map<Pair, nat> {
        Map::new(
            |p: Pair| self.slot_of@.contains_key(p),
            |p: Pair| self.entries@[self.slot_of@[p] as int].count as nat,
        )
    }
}

impl PairCounts {
    /// Each entry is found under its own pair, and nothing else is.
    pub closed spec fn wf(&self) -> bool {
        &&& self.slot_of.wf()
        &&& forall|i: int|
            #![trigger self.entries@[i]]
            0 <= i < self.entries@.len() ==> self.slot_of@.contains_key(self.entries@[i].pair())
                && self.slot_of@[self.entries@[i].pair()] == i
        &&& forall|p: Pair| #[trigger]
            self.slot_of@.contains_key(p) ==> self.slot_of@[p] < self.entries@.len()
                && self.entries@[self.slot_of@[p] as int].pair() == p
    }

    pub fn new() -> (r: Self)
        ensures
            r.wf(),
            r@ == Map::<Pair, nat>::empty(),
    {
        let r = PairCounts { entries: Vec::new(), slot_of: PairTable::new() };
        assert(r@ =~= Map::<Pair, nat>::empty());
        r
    }

    /// Counts `(a, b)` another `n` times.
    fn add_pair(&mut self, a: &String, b: &String, n: usize)
        requires
            old(self).wf(),
        ensures
            final(self).wf(),
            final(self)@ == with_pair(old(self)@, (a@, b@), n as nat),
    {
        match self.slot_of.get(a.as_str(), b.as_str()) {
            Some(i) => {
                assert(self.slot_of@.contains_key((a@, b@)));
                self.entries[i].count = self.entries[i].count.saturating_add(n);
            },
            None => {
                let i: usize = self.entries.len();
                self.entries.push(PairCount { first: a.clone(), second: b.clone(), count: n });
                self.slot_of.insert(a.as_str(), b.as_str(), i);
            },
        }
        assert(self@ =~= with_pair(old(self)@, (a@, b@), n as nat));
    }

    /// The counts with the pairs of `word` added.
    pub fn plus_word(self, word: &WordEntry) -> (r: Self)
        requires
            self.wf(),
        ensures
            r.wf(),
            r@ == with_word(self@, word@),
    {
        let ghost symbols = text::texts(word.symbols@);
        let ghost freq = word.freq as nat;
        let mut r: PairCounts = self;
        let n: usize = word.symbols.len();
        if n == 0 {
            proof {
                lemma_with_short_word(self@, symbols, freq);
            }
            return r;
        }
        let mut i: usize = 0;
        proof {
            lemma_with_short_word(self@, symbols.take(1), freq);
        }
        while i < n - 1
            invariant
                symbols == text::texts(word.symbols@),
                freq == word.freq,
                n == word.symbols@.len(),
                i < n,
                r.wf(),
                r@ == with_word(self@, (Word { symbols: symbols.take(i + 1), freq })),
            decreases n - i,
        {
            r.add_pair(&word.symbols[i], &word.symbols[i + 1], word.freq);
            i += 1;
            proof {
                lemma_with_longer_word(self@, symbols.take(i + 1), freq);
                assert(symbols.take(i + 1).drop_last() =~= symbols.take(i as int));
            }
        }
        assert(symbols.take(i + 1) =~= symbols);
        r
    }

    /// The counts of both tables together.
    pub fn plus(self, other: PairCounts) -> (r: Self)
        requires
            self.wf(),
            other.wf(),
        ensures
            r.wf(),
            r@ == sum_of(self@, other@),
    {
        let mut r: PairCounts = self;
        let mut i: usize = 0;
        assert(r@ =~= sum_of(self@, other.below(0)));
        while i < other.entries.len()
            invariant
                i <= other.entries@.len(),
                other.wf(),
                r.wf(),
                r@ == sum_of(self@, other.below(i as int)),
            decreases other.entries@.len() - i,
        {
            let e: &PairCount = &other.entries[i];
            r.add_pair(&e.first, &e.second, e.count);
            i += 1;
            assert(r@ =~= sum_of(self@, other.below(i as int)));
        }
        assert(other.below(i as int) =~= other@);
        r
    }

    /// The counts that stand in the first `n` slots.
    spec fn below(&self, n: int) -> Map<Pair, nat> {
        self@.restrict(Set::new(|p: Pair| self.slot_of@.contains_key(p) && self.slot_of@[p] < n))
    }

    /// A pair with the highest count, if there is any pair.
    pub fn best_pair(&self) -> (r: Option<(String, String)>)
        requires
            self.wf(),
        ensures
            match r {
                Some(p) => highest_in(self@, (p.0@, p.1@)),
                None => self@ == Map::<Pair, nat>::empty(),
            },
    {
        let n: usize = self.entries.len();
        if n == 0 {
            assert(self@ =~= Map::<Pair, nat>::empty());
            return None;
        }
        assert(self@.contains_key(self.entries@[0].pair()));
        let mut best: usize = 0;
        let mut i: usize = 1;
        while i < n
            invariant
                self.wf(),
                n == self.entries@.len(),
                best < n,
                1 <= i <= n,
                forall|j: int|
                    0 <= j < i ==> #[trigger] self.entries@[j].count <= self.entries@[best as int].count,
            decreases n - i,
        {
            if self.entries[i].count > self.entries[best].count {
                best = i;
            }
            i += 1;
        }
        Some((self.entries[best].first.clone(), self.entries[best].second.clone()))
    }
}

/// `p` is counted, and no pair is counted more often.
pub open spec fn highest_in(m: Map<Pair, nat>, p: Pair) -> bool {
    &&& m.contains_key(p)
    &&& forall|q: Pair| #[trigger] m.contains_key(q) ==> m[q] <= m[p]
}

/// A word of at most one symbol holds no pair.
proof fn lemma_with_short_word(m: Map<Pair, nat>, symbols: Seq<Seq<char>>, freq: nat)
    requires
        symbols.len() <= 1,
        forall|p: Pair| #[trigger] m.contains_key(p) ==> m[p] <= usize::MAX,
    ensures
        with_word(m, (Word { symbols, freq })) == m,
{
    assert(with_word(m, (Word { symbols, freq })) =~= m);
}

/// The last pair of a word can be counted after all the others.
proof fn lemma_with_longer_word(m: Map<Pair, nat>, symbols: Seq<Seq<char>>, freq: nat)
    requires
        symbols.len() >= 2,
    ensures
        with_word(m, (Word { symbols, freq })) == with_pair(
            with_word(m, (Word { symbols: symbols.drop_last(), freq })),
            pair_at(symbols, symbols.len() - 2),
            freq,
        ),
{
    let shorter = symbols.drop_last();
    let before = with_word(m, (Word { symbols: shorter, freq }));
    let last = pair_at(symbols, symbols.len() - 2);
    assert forall|p: Pair| has_pair(symbols, p) <==> has_pair(shorter, p) || p == last by {
        if has_pair(symbols, p) {
            let i = choose|i: int| 0 <= i < symbols.len() - 1 && #[trigger] pair_at(symbols, i) == p;
            if i < symbols.len() - 2 {
                assert(pair_at(shorter, i) == p);
            }
        }
        if has_pair(shorter, p) {
            let i = choose|i: int| 0 <= i < shorter.len() - 1 && #[trigger] pair_at(shorter, i) == p;
            assert(pair_at(symbols, i) == p);
        }
    }
    assert forall|p: Pair| !has_pair(shorter, p) implies pair_weight(shorter, freq, p) == 0 by {
        lemma_absent_pair_weighs_nothing(shorter, freq, p);
    }
    assert(with_word(m, (Word { symbols, freq })) =~= with_pair(before, last, freq));
}

/// A pair that a word does not hold adds nothing to its count.
proof fn lemma_absent_pair_weighs_nothing(symbols: Seq<Seq<char>>, freq: nat, p: Pair)
    requires
        !has_pair(symbols, p),
    ensures
        pair_weight(symbols, freq, p) == 0,
    decreases symbols.len(),
{
    if symbols.len() >= 2 {
        let shorter = symbols.drop_last();
        assert(pair_at(symbols, symbols.len() - 2) != p);
        assert forall|i: int| 0 <= i < shorter.len() - 1 implies #[trigger] pair_at(shorter, i)
            != p by {
            assert(pair_at(symbols, i) == pair_at(shorter, i));
        }
        lemma_absent_pair_weighs_nothing(shorter, freq, p);
    }
}

/// Counts the adjacent pairs of all words.
pub fn count_pairs(words: &Vec<WordEntry>) -> (r: PairCounts)
    ensures
        r.wf(),
        r@ == pair_counts(words_of(words@)),
{
    let ghost all = words_of(words@);
    let mut r: PairCounts = PairCounts::new();
    let mut i: usize = 0;
    assert(r@ =~= pair_counts(all.take(0)));
    while i < words.len()
        invariant
            i <= words@.len(),
            all == words_of(words@),
            r.wf(),
            r@ == pair_counts(all.take(i as int)),
        decreases words@.len() - i,
    {
        r = r.plus_word(&words[i]);
        i += 1;
        proof {
            lemma_count_one_more(all.take(i as int));
            assert(all.take(i as int).drop_last() =~= all.take(i - 1));
        }
    }
    assert(all.take(i as int) =~= all);
    r
}

/// Counts the adjacent pairs of all words on rayon's thread pool.
///
/// `par_iter().fold(..)` splits the words into runs, in order, and folds each
/// run from an empty table with `plus_word`; `reduce(..)` joins the tables of
/// neighbouring runs with `plus`, in a grouping that rayon leaves open. The
/// contract claims the same counts as one pass over all words, which
/// `lemma_counts_add_up` proves of every such grouping.
#[verifier::external_body]
pub(crate) fn count_pairs_in_parallel(words: &Vec<WordEntry>) -> (r: PairCounts)
    ensures
        r.wf(),
        r@ == pair_counts(words_of(words@)),
{
    words.par_iter().fold(PairCounts::new, |counts, w| counts.plus_word(w)).reduce(
        PairCounts::new,
        |a, b| a.plus(b),
    )
}

/// A pair with the highest count, found on rayon's thread pool.
///
/// `par_iter().max_by_key(..)` returns nothing on an empty list and otherwise
/// an item whose key no other item exceeds. Which of several such items it
/// returns is left open, and so it is here.
#[verifier::external_body]
pub(crate) fn best_pair_in_parallel(counts: &PairCounts) -> (r: Option<(String, String)>)
    requires
        counts.wf(),
    ensures
        match r {
            Some(p) => highest_in(counts@, (p.0@, p.1@)),
            None => counts@ == Map::<Pair, nat>::empty(),
        },
{
    counts.entries.par_iter().max_by_key(|e| e.count).map(|e| (e.first.clone(), e.second.clone()))
}

/// Counting a list of words is counting all but the last, then the last.
proof fn lemma_count_one_more(words: Seq<Word>)
    requires
        words.len() > 0,
    ensures
        pair_counts(words) == with_word(pair_counts(words.drop_last()), words.last()),
{
    let shorter = words.drop_last();
    let w = words.last();
    assert forall|p: Pair| occurs(words, p) <==> occurs(shorter, p) || has_pair(w.symbols, p) by {
        if occurs(words, p) {
            let i = choose|i: int|
                0 <= i < words.len() && has_pair(#[trigger] words[i].symbols, p);
            if i < words.len() - 1 {
                assert(shorter[i].symbols == words[i].symbols);
            }
        }
        if occurs(shorter, p) {
            let i = choose|i: int|
                0 <= i < shorter.len() && has_pair(#[trigger] shorter[i].symbols, p);
            assert(words[i].symbols == shorter[i].symbols);
        }
        if has_pair(w.symbols, p) {
            assert(words[words.len() - 1].symbols == w.symbols);
        }
    }
    assert forall|p: Pair| !occurs(shorter, p) implies frequency(shorter, p) == 0 by {
        lemma_absent_pair_is_not_counted(shorter, p);
    }
    assert(pair_counts(words) =~= with_word(pair_counts(shorter), w));
}

/// A pair that occurs nowhere has frequency zero.
proof fn lemma_absent_pair_is_not_counted(words: Seq<Word>, p: Pair)
    requires
        !occurs(words, p),
    ensures
        frequency(words, p) == 0,
    decreases words.len(),
{
    if words.len() > 0 {
        let shorter = words.drop_last();
        assert(words[words.len() - 1].symbols == words.last().symbols);
        assert forall|i: int| 0 <= i < shorter.len() implies !has_pair(
            #[trigger] shorter[i].symbols,
            p,
        ) by {
            assert(words[i].symbols == shorter[i].symbols);
        }
        lemma_absent_pair_is_not_counted(shorter, p);
        lemma_absent_pair_weighs_nothing(words.last().symbols, words.last().freq, p);
    }
}

/// However a list of words is cut in two, the counts of the parts add up to
/// the counts of the whole.
pub proof fn lemma_counts_add_up(left: Seq<Word>, right: Seq<Word>)
    ensures
        pair_counts(left + right) == sum_of(pair_counts(left), pair_counts(right)),
    decreases right.len(),
{
    if right.len() == 0 {
        assert(left + right =~= left);
        assert(sum_of(pair_counts(left), pair_counts(right)) =~= pair_counts(left));
    } else {
        let shorter = right.drop_last();
        let w = right.last();
        lemma_counts_add_up(left, shorter);
        lemma_count_one_more(left + right);
        lemma_count_one_more(right);
        assert((left + right).drop_last() =~= left + shorter);
        assert((left + right).last() == w);
        assert(with_word(sum_of(pair_counts(left), pair_counts(shorter)), w) =~= sum_of(
            pair_counts(left),
            with_word(pair_counts(shorter), w),
        )) by {
            assert forall|p: Pair| !occurs(shorter, p) implies frequency(shorter, p) == 0 by {
                lemma_absent_pair_is_not_counted(shorter, p);
            }
            assert forall|p: Pair| !has_pair(w.symbols, p) implies pair_weight(
                w.symbols,
                w.freq,
                p,
            ) == 0 by {
                lemma_absent_pair_weighs_nothing(w.symbols, w.freq, p);
            }
        }
    }
}

/// The pair with the highest count is a most frequent pair.
pub proof fn lemma_highest_is_most_frequent(words: Seq<Word>, p: Pair)
    ensures
        highest_in(pair_counts(words), p) <==> most_frequent(words, p),
{
    let m = pair_counts(words);
    assert forall|q: Pair| m.contains_key(q) <==> occurs(words, q) by {}
}

} // verus!
