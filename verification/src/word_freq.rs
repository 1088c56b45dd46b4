//! Word frequencies.

use vstd::hash_map::StringHashMap;
use vstd::prelude::*;

use crate::merges;
use crate::text;

verus! {

/// A word and how often it occurs.
pub struct WordFreq {
    pub word: String,
    pub freq: usize,
}

/// The number of times `w` stands in `words`.
pub open spec fn occurrences(words: Seq<Seq<char>>, w: Seq<char>) -> nat
    decreases words.len(),
{
    if words.len() == 0 {
        0
    } else {
        occurrences(words.drop_last(), w) + (if words.last() == w {
            1nat
        } else {
            0
        })
    }
}

/// The different words, in the order of their first occurrence.
pub open spec fn distinct(words: Seq<Seq<char>>) -> Seq<Seq<char>>
    decreases words.len(),
{
    if words.len() == 0 {
        Seq::empty()
    } else {
        merges::registered(distinct(words.drop_last()), words.last())
    }
}

/// `list` holds each different word of `words` once, in the order of first
/// occurrence, with its number of occurrences.
pub open spec fn tallies(list: Seq<WordFreq>, words: Seq<Seq<char>>) -> bool {
    &&& list.len() == distinct(words).len()
    &&& forall|i: int|
        #![trigger list[i]]
        #![trigger distinct(words)[i]]
        0 <= i < list.len() ==> list[i].word@ == distinct(words)[i] && list[i].freq == occurrences(
            words,
            list[i].word@,
        )
}

/// No word occurs more often than there are words.
pub proof fn lemma_occurrences_bounded(words: Seq<Seq<char>>, w: Seq<char>)
    ensures
        occurrences(words, w) <= words.len(),
        !words.contains(w) ==> occurrences(words, w) == 0,
        words.contains(w) ==> occurrences(words, w) > 0,
    decreases words.len(),
{
    if words.len() > 0 {
        let shorter = words.drop_last();
        lemma_occurrences_bounded(shorter, w);
        if shorter.contains(w) {
            let i = choose|i: int| 0 <= i < shorter.len() && shorter[i] == w;
            assert(words[i] == w);
        }
        if words.contains(w) && words.last() != w {
            let i = choose|i: int| 0 <= i < words.len() && words[i] == w;
            assert(shorter[i] == w);
        }
        if words.last() == w {
            assert(words[words.len() - 1] == w);
        }
    }
}

/// The different words are the words, each once.
pub proof fn lemma_distinct(words: Seq<Seq<char>>)
    ensures
        distinct(words).no_duplicates(),
        forall|w: Seq<char>| distinct(words).contains(w) <==> words.contains(w),
        forall|i: int|
            0 <= i < distinct(words).len() ==> words.contains(#[trigger] distinct(words)[i]),
    decreases words.len(),
{
    if words.len() > 0 {
        let shorter = words.drop_last();
        let w0 = words.last();
        lemma_distinct(shorter);
        assert forall|w: Seq<char>| words.contains(w) <==> shorter.contains(w) || w == w0 by {
            if words.contains(w) && w != w0 {
                let i = choose|i: int| 0 <= i < words.len() && words[i] == w;
                assert(shorter[i] == w);
            }
            if shorter.contains(w) {
                let i = choose|i: int| 0 <= i < shorter.len() && shorter[i] == w;
                assert(words[i] == w);
            }
            assert(words[words.len() - 1] == w0);
        }
        let d = distinct(shorter);
        if !d.contains(w0) {
            assert forall|w: Seq<char>| d.push(w0).contains(w) <==> d.contains(w) || w == w0 by {
                assert(d.push(w0)[d.len() as int] == w0);
                if d.contains(w) {
                    let i = choose|i: int| 0 <= i < d.len() && d[i] == w;
                    assert(d.push(w0)[i] == w);
                }
            }
        }
        assert forall|i: int| 0 <= i < distinct(words).len() implies words.contains(
            #[trigger] distinct(words)[i],
        ) by {
            assert(distinct(words).contains(distinct(words)[i]));
        }
    }
}

/// Counts how often each word occurs.
pub fn tally(words: &Vec<String>) -> (r: Vec<WordFreq>)
    ensures
        tallies(r@, text::texts(words@)),
{
    let ghost all = text::texts(words@);
    let mut r: Vec<WordFreq> = Vec::new();
    let mut slot_of: StringHashMap<usize> = StringHashMap::new();
    let mut i: usize = 0;
    assert(all.take(0) =~= Seq::empty());
    while i < words.len()
        invariant
            i <= words@.len(),
            all == text::texts(words@),
            tallies(r@, all.take(i as int)),
            forall|w: Seq<char>| #[trigger]
                slot_of@.contains_key(w) <==> all.take(i as int).contains(w),
            forall|w: Seq<char>| #[trigger]
                slot_of@.contains_key(w) ==> slot_of@[w] < r@.len() && r@[slot_of@[w] as int].word@
                    == w,
        decreases words@.len() - i,
    {
        let ghost seen = all.take(i as int);
        let ghost next = all.take(i + 1);
        let ghost before = r@;
        let word: &String = &words[i];
        proof {
            assert(next.drop_last() =~= seen);
            lemma_distinct(seen);
            lemma_distinct(next);
            lemma_occurrences_bounded(seen, word@);
            assert forall|w: Seq<char>| next.contains(w) <==> seen.contains(w) || w == word@ by {
                assert(next[i as int] == word@);
                if seen.contains(w) {
                    let k = choose|k: int| 0 <= k < seen.len() && seen[k] == w;
                    assert(next[k] == w);
                }
                if next.contains(w) && w != word@ {
                    let k = choose|k: int| 0 <= k < next.len() && next[k] == w;
                    assert(seen[k] == w);
                }
            }
        }
        let found: Option<usize> = match slot_of.get(word.as_str()) {
            Some(k) => Some(*k),
            None => None,
        };
        match found {
            Some(k) => {
                assert(distinct(seen)[k as int] == word@);
                assert(before[k as int].freq == occurrences(seen, word@));
                r[k].freq = r[k].freq + 1;
                assert forall|j: int| 0 <= j < r@.len() implies #[trigger] r@[j].word@ == distinct(
                    next,
                )[j] && r@[j].freq == occurrences(next, r@[j].word@) by {
                    assert(before[j].word@ == distinct(seen)[j]);
                    if j != k {
                        assert(distinct(seen)[j] != distinct(seen)[k as int]);
                    }
                }
            },
            None => {
                let k: usize = r.len();
                r.push(WordFreq { word: word.clone(), freq: 1 });
                slot_of.insert(word.clone(), k);
                assert forall|j: int| 0 <= j < r@.len() implies #[trigger] r@[j].word@ == distinct(
                    next,
                )[j] && r@[j].freq == occurrences(next, r@[j].word@) by {
                    if j < k {
                        assert(before[j].word@ == distinct(seen)[j]);
                        assert(seen.contains(distinct(seen)[j]));
                    }
                }
            },
        }
        i += 1;
    }
    assert(all.take(i as int) =~= all);
    r
}

} // verus!
