//! Two corpora mixed into one, and the tokenizer for the mixture.

use crate::char_bpe_tokenizer::{self, CharBpeModel, CharBpeTokenizer};
use crate::merges;
use crate::text::{self, first_chars};
use vstd::prelude::*;

verus! {

/// What stands between two corpora.
pub const SEPARATOR: &'static str = "\n\n";

/// `s` and the separator, `n` times.
pub open spec fn repeated(s: Seq<char>, n: nat) -> Seq<char>
    decreases n,
{
    if n == 0 {
        Seq::empty()
    } else {
        repeated(s, (n - 1) as nat) + s + SEPARATOR@
    }
}

/// The literary corpus `repeat` times, then the encyclopedia.
pub fn mix(literature: &str, encyclopedia: &str, repeat: usize) -> (r: String)
    ensures
        r@ == repeated(literature@, repeat as nat) + encyclopedia@,
{
    let mut r: String = String::new();
    let mut i: usize = 0;
    assert(r@ =~= Seq::empty());
    while i < repeat
        invariant
            i <= repeat,
            r@ == repeated(literature@, i as nat),
        decreases repeat - i,
    {
        r.append(literature);
        r.append(SEPARATOR);
        i += 1;
    }
    r.append(encyclopedia);
    r
}

/// The first `n` characters, or all where there are fewer.
pub open spec fn head(s: Seq<char>, n: int) -> Seq<char> {
    s.take(
        if n <= s.len() {
            n
        } else {
            s.len() as int
        },
    )
}

/// The beginnings of both corpora, for a tokenizer to learn from.
pub fn stratified_sample(
    literature: &str,
    encyclopedia: &str,
    literature_chars: usize,
    encyclopedia_chars: usize,
) -> (r: String)
    ensures
        r@ == head(literature@, literature_chars as int) + SEPARATOR@ + head(
            encyclopedia@,
            encyclopedia_chars as int,
        ),
{
    let mut r: String = first_chars(literature, literature_chars);
    r.append(SEPARATOR);
    r.append(first_chars(encyclopedia, encyclopedia_chars).as_str());
    r
}

/// The special tokens that mark titles, dramas and authors.
pub open spec fn markers() -> Seq<Seq<char>> {
    seq![
        "<TITLE>"@,
        "</TITLE>"@,
        "<DRAMA>"@,
        "</DRAMA>"@,
        "<AUTHOR=夏目漱石>"@,
        "<AUTHOR=太宰治>"@,
        "<AUTHOR=森鴎外>"@,
        "<AUTHOR=宮沢賢治>"@,
        "<AUTHOR=中島敦>"@,
        "<AUTHOR=国木田独歩>"@,
    ]
}

/// The special tokens that mark titles, dramas and authors.
pub fn new_special_tokens() -> (r: Vec<String>)
    ensures
        text::texts(r@) == markers(),
{
    let mut r: Vec<String> = Vec::new();
    r.push("<TITLE>".to_owned());
    r.push("</TITLE>".to_owned());
    r.push("<DRAMA>".to_owned());
    r.push("</DRAMA>".to_owned());
    r.push("<AUTHOR=夏目漱石>".to_owned());
    r.push("<AUTHOR=太宰治>".to_owned());
    r.push("<AUTHOR=森鴎外>".to_owned());
    r.push("<AUTHOR=宮沢賢治>".to_owned());
    r.push("<AUTHOR=中島敦>".to_owned());
    r.push("<AUTHOR=国木田独歩>".to_owned());
    assert(text::texts(r@) =~= markers());
    r
}

/// A tokenizer with the listed special tokens added one by one.
pub open spec fn with_specials(m: CharBpeModel, list: Seq<Seq<char>>) -> CharBpeModel
    decreases list.len(),
{
    if list.len() == 0 {
        m
    } else {
        with_specials(m, list.drop_last()).with_special(list.last())
    }
}

/// Adding special tokens that the vocabulary lacks puts them behind it, in order:
/// no id changes, and the vocabulary grows by one for each.
pub proof fn law_markers_stand_behind(m: CharBpeModel, list: Seq<Seq<char>>)
    requires
        list.no_duplicates(),
        forall|i: int| 0 <= i < list.len() ==> !m.tokens.contains(#[trigger] list[i]),
    ensures
        with_specials(m, list).tokens == m.tokens + list,
        with_specials(m, list).special_tokens == m.special_tokens + list,
        with_specials(m, list).merges == m.merges,
    decreases list.len(),
{
    if list.len() == 0 {
        assert(m.tokens + list =~= m.tokens);
        assert(m.special_tokens + list =~= m.special_tokens);
    } else {
        let shorter = list.drop_last();
        let token = list.last();
        law_markers_stand_behind(m, shorter);
        let before = with_specials(m, shorter);
        assert(list[list.len() - 1] == token);
        assert(!before.tokens.contains(token)) by {
            if before.tokens.contains(token) {
                let i = choose|i: int| 0 <= i < before.tokens.len() && before.tokens[i] == token;
                if i < m.tokens.len() {
                    assert(m.tokens[i] == token);
                } else {
                    assert(list[i - m.tokens.len()] == token);
                }
            }
        }
        assert(with_specials(m, list).tokens =~= m.tokens + list);
        assert(with_specials(m, list).special_tokens =~= m.special_tokens + list);
    }
}

/// Adds the listed special tokens and returns their ids.
pub fn add_special_tokens(t: &mut CharBpeTokenizer, list: &Vec<String>) -> (ids: Vec<usize>)
    requires
        old(t).wf(),
    ensures
        final(t).wf(),
        final(t)@ == with_specials(old(t)@, text::texts(list@)),
        ids@.len() == list@.len(),
        forall|i: int|
            0 <= i < ids@.len() ==> Some(#[trigger] ids@[i] as int) == merges::last_index(
                with_specials(old(t)@, text::texts(list@).take(i + 1)).tokens,
                list@[i]@,
            ),
{
    let ghost all = text::texts(list@);
    let n: usize = list.len();
    let mut ids: Vec<usize> = Vec::new();
    let mut i: usize = 0;
    assert(all.take(0) =~= Seq::empty());
    while i < n
        invariant
            i <= n,
            n == list@.len(),
            all == text::texts(list@),
            t.wf(),
            t@ == with_specials(old(t)@, all.take(i as int)),
            ids@.len() == i,
            forall|j: int|
                0 <= j < i ==> Some(#[trigger] ids@[j] as int) == merges::last_index(
                    with_specials(old(t)@, all.take(j + 1)).tokens,
                    list@[j]@,
                ),
        decreases n - i,
    {
        let id: usize = t.add_special_token(list[i].as_str());
        ids.push(id);
        proof {
            assert(all.take(i + 1).drop_last() =~= all.take(i as int));
            assert(all.take(i + 1).last() == list@[i as int]@);
        }
        i += 1;
    }
    assert(all.take(n as int) =~= all);
    ids
}

/// Trains a tokenizer on a sample, for all characters of a corpus, and adds the
/// markers to it. Returns the tokenizer, its size before the markers, and their
/// ids.
pub fn train_with_markers(sample: &str, corpus: &str, vocab_size: usize) -> (r: (
    CharBpeTokenizer,
    usize,
    Vec<usize>,
))
    ensures
        r.0.wf(),
        r.2@.len() == markers().len(),
        exists|base: CharBpeModel|
            #![trigger with_specials(base, markers())]
            {
                &&& base.unk_id == 1
                &&& base.special_tokens == char_bpe_tokenizer::reserved()
                &&& merges::learned(
                    char_bpe_tokenizer::char_words(sample@),
                    char_bpe_tokenizer::initial_tokens(corpus@, sample@),
                    base.merges,
                    base.tokens,
                    vocab_size as nat,
                )
                &&& r.1 == base.tokens.len()
                &&& r.0@ == with_specials(base, markers())
                &&& forall|i: int|
                    0 <= i < r.2@.len() ==> Some(#[trigger] r.2@[i] as int) == merges::last_index(
                        with_specials(base, markers().take(i + 1)).tokens,
                        markers()[i],
                    )
            },
{
    let mut t: CharBpeTokenizer = CharBpeTokenizer::train_with_coverage(sample, corpus, vocab_size);
    let ghost base = t@;
    let initial: usize = t.vocab_size();
    let list: Vec<String> = new_special_tokens();
    let ids: Vec<usize> = add_special_tokens(&mut t, &list);
    assert(forall|i: int| 0 <= i < list@.len() ==> (#[trigger] list@[i])@ == text::texts(list@)[i]);
    assert(t@ == with_specials(base, markers()));
    (t, initial, ids)
}

/// Whether an encoded text starts with the marker of its beginning and one of the
/// tokens that were added behind the first `initial` ones.
pub fn header_is_recognized(ids: &[usize], bos_id: usize, initial: usize) -> (r: bool)
    requires
        ids@.len() > 0,
    ensures
        r == (ids@[0] == bos_id && (if ids@.len() > 1 {
            ids@[1]
        } else {
            0
        }) >= initial),
{
    let second: usize = if ids.len() > 1 {
        ids[1]
    } else {
        0
    };
    ids[0] == bos_id && second >= initial
}

} // verus!
