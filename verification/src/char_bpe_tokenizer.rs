//! Byte-pair encoding over Unicode characters.
//!
//! White space and punctuation are symbols of their own, and decoding joins the
//! tokens as they are, so that a text whose characters are all in the
//! vocabulary comes back unchanged.

use vstd::hash_map::StringHashMap;
use vstd::prelude::*;

use crate::checkpoint::{Checkpointable, Record, WeightMap, Weights};
use crate::error::DataError;
use crate::merges::{self, apply_merges_to, learn_merges, register};
use crate::pair_table::{Pair, PairTable};
use crate::pairs::{self, Word, WordEntry};
use crate::stored::{self, copy_strings, flatten_pairs, index_tokens, pairs_from_flat, rank_pairs};
use crate::text::{self, chars_of, contains_text, is_white_space, position_of, split_chars, string_of, string_of_char};
use crate::tokenizer::{Tokenizer, TokenizerKind};
use crate::word_freq::{self, tally, WordFreq};

verus! {

/// Punctuation that stands as a token of its own.
pub open spec fn split_punct(c: char) -> bool {
    ||| c == '.'
    ||| c == ','
    ||| c == ';'
    ||| c == ':'
    ||| c == '!'
    ||| c == '?'
    ||| c == '。'
    ||| c == '、'
    ||| c == '！'
    ||| c == '？'
    ||| c == '「'
    ||| c == '」'
    ||| c == '『'
    ||| c == '』'
    ||| c == '（'
    ||| c == '）'
}

/// Tells whether `ch` is punctuation that stands as a token of its own.
pub fn is_split_punct(ch: char) -> (r: bool)
    ensures
        r == split_punct(ch),
{
    matches!(
        ch,
        '.' | ',' | ';' | ':' | '!' | '?' | '。' | '、' | '！' | '？' | '「' | '」' | '『' | '』' | '（' | '）'
    )
}

/// A character at which words end.
pub open spec fn is_break(c: char) -> bool {
    text::white_space(c) || split_punct(c)
}

/// The number of characters before the first break.
pub open spec fn run_length(s: Seq<char>) -> nat
    decreases s.len(),
{
    if s.len() == 0 || is_break(s[0]) {
        0
    } else {
        1 + run_length(s.skip(1))
    }
}

/// The text cut into breaks, one character each, and the runs between them.
pub open spec fn pretokens(s: Seq<char>) -> Seq<Seq<char>>
    decreases s.len(),
{
    if s.len() == 0 {
        Seq::empty()
    } else if is_break(s[0]) {
        seq![s.take(1)] + pretokens(s.skip(1))
    } else {
        proof {
            lemma_run_length_bounded(s);
        }
        seq![s.take(run_length(s) as int)] + pretokens(s.skip(run_length(s) as int))
    }
}

/// A run is part of the text.
pub proof fn lemma_run_length_bounded(s: Seq<char>)
    ensures
        run_length(s) <= s.len(),
    decreases s.len(),
{
    if s.len() > 0 {
        lemma_run_length_bounded(s.skip(1));
    }
}

/// A run is as long as the characters up to the first break.
proof fn lemma_run_length(s: Seq<char>, n: int)
    requires
        0 <= n <= s.len(),
        forall|i: int| 0 <= i < n ==> !is_break(#[trigger] s[i]),
        n < s.len() ==> is_break(s[n]),
    ensures
        run_length(s) == n,
    decreases n,
{
    if n > 0 {
        assert forall|i: int| 0 <= i < n - 1 implies !is_break(#[trigger] s.skip(1)[i]) by {
            assert(s.skip(1)[i] == s[i + 1]);
        }
        lemma_run_length(s.skip(1), n - 1);
    }
}

/// Cuts a text into words, white space and punctuation.
pub fn pretokenize(text: &str) -> (r: Vec<String>)
    ensures
        text::texts(r@) == pretokens(text@),
{
    let chars: Vec<char> = chars_of(text);
    let n: usize = chars.len();
    let mut r: Vec<String> = Vec::new();
    let mut i: usize = 0;
    assert(chars@.skip(0) =~= chars@);
    assert(text::texts(r@) + pretokens(chars@.skip(0)) =~= pretokens(chars@));
    while i < n
        invariant
            i <= n == chars@.len(),
            text::texts(r@) + pretokens(chars@.skip(i as int)) == pretokens(chars@),
        decreases n - i,
    {
        let ghost rest = chars@.skip(i as int);
        let ghost before = r@;
        let c: char = chars[i];
        let mut j: usize = i + 1;
        if !(is_white_space(c) || is_split_punct(c)) {
            while j < n && !(is_white_space(chars[j]) || is_split_punct(chars[j]))
                invariant
                    i < j <= n == chars@.len(),
                    forall|k: int| i <= k < j ==> !is_break(#[trigger] chars@[k]),
                decreases n - j,
            {
                j += 1;
            }
            proof {
                lemma_run_length(rest, j - i);
            }
        }
        r.push(string_of(&chars, i, j));
        proof {
            assert(chars@.subrange(i as int, j as int) =~= rest.take(j - i));
            assert(rest.skip(j - i) =~= chars@.skip(j as int));
            assert(text::texts(r@) =~= text::texts(before) + seq![rest.take(j - i)]);
            assert(text::texts(r@) + pretokens(chars@.skip(j as int)) =~= text::texts(before)
                + pretokens(rest));
        }
        i = j;
    }
    assert(pretokens(chars@.skip(i as int)) =~= Seq::empty());
    assert(text::texts(r@) =~= pretokens(chars@));
    r
}

/// The markers that every vocabulary starts with.
pub open spec fn reserved() -> Seq<Seq<char>> {
    seq!["<PAD>"@, "<UNK>"@, "<BOS>"@, "<EOS>"@]
}

/// What a `CharBpeTokenizer` stands for.
#[verifier::ext_equal]
pub struct CharBpeModel {
    /// The tokens, in the order of their ids.
    pub tokens: Seq<Seq<char>>,
    /// The learned pairs, in the order of their ranks.
    pub merges: Seq<Pair>,
    /// The id of text that no token covers.
    pub unk_id: usize,
    /// The markers that are recognised as a whole.
    pub special_tokens: Seq<Seq<char>>,
}

/// The different words of a list, each split by `split` and weighted by its
/// number of occurrences.
pub open spec fn weighted(
    words: Seq<Seq<char>>,
    split: spec_fn(Seq<char>) -> Seq<Seq<char>>,
) -> Seq<Word> {
    Seq::new(
        word_freq::distinct(words).len(),
        |i: int|
            Word {
                symbols: split(word_freq::distinct(words)[i]),
                freq: word_freq::occurrences(words, word_freq::distinct(words)[i]),
            },
    )
}

/// The words of a text as characters.
pub open spec fn char_words(s: Seq<char>) -> Seq<Word> {
    weighted(pretokens(s), |w: Seq<char>| text::singletons(w))
}

/// The vocabulary before any merge: the reserved markers, then the characters
/// of both texts in the order of their first occurrence.
pub open spec fn initial_tokens(coverage: Seq<char>, merge: Seq<char>) -> Seq<Seq<char>> {
    merges::registered_all(
        merges::registered_all(reserved(), text::singletons(coverage)),
        text::singletons(merge),
    )
}

/// A byte-pair tokenizer whose smallest symbols are characters.
///
/// Ids 0 to 3 are `<PAD>`, `<UNK>`, `<BOS>` and `<EOS>`. Then come the characters
/// and the tokens that merges made of them, and special tokens as they are added.
pub struct CharBpeTokenizer {
    pub id_to_token: Vec<String>,
    pub token_to_id: StringHashMap<usize>,
    pub merges: Vec<(String, String)>,
    pub merge_rank: PairTable,
    pub unk_id: usize,
    pub special_tokens: Vec<String>,
}

impl View for CharBpeTokenizer {
    type V = CharBpeModel;

    open spec fn view(&self) -> CharBpeModel {
        CharBpeModel {
            tokens: text::texts(self.id_to_token@),
            merges: merges::pairs_of(self.merges@),
            unk_id: self.unk_id,
            special_tokens: text::texts(self.special_tokens@),
        }
    }
}

/// Adds the characters of `s` to the vocabulary.
fn register_chars(
    id_to_token: &mut Vec<String>,
    token_to_id: &mut StringHashMap<usize>,
    s: &str,
)
    requires
        merges::indexes_tokens(old(token_to_id)@, text::texts(old(id_to_token)@)),
    ensures
        merges::indexes_tokens(final(token_to_id)@, text::texts(final(id_to_token)@)),
        text::texts(final(id_to_token)@) == merges::registered_all(
            text::texts(old(id_to_token)@),
            text::singletons(s@),
        ),
{
    let ghost before = text::texts(id_to_token@);
    let ghost all = text::singletons(s@);
    assert(all.take(0) =~= Seq::empty());
    for c in it: s.chars()
        invariant
            it.seq() == s@,
            all == text::singletons(s@),
            merges::indexes_tokens(token_to_id@, text::texts(id_to_token@)),
            text::texts(id_to_token@) == merges::registered_all(before, all.take(it.index() as int)),
    {
        let key: String = string_of_char(c);
        register(id_to_token, token_to_id, key.as_str());
        proof {
            let next = all.take(it.index() + 1);
            assert(next.drop_last() =~= all.take(it.index() as int));
            assert(next.last() == seq![c]);
        }
    }
    assert(all.take(s@.len() as int) =~= all);
}

impl CharBpeTokenizer {
    pub const PAD: &'static str = "<PAD>";

    pub const UNK: &'static str = "<UNK>";

    pub const BOS: &'static str = "<BOS>";

    pub const EOS: &'static str = "<EOS>";

    /// Every token is found under its last id, and every merged pair under its
    /// last rank.
    pub closed spec fn wf(&self) -> bool {
        &&& merges::indexes_tokens(self.token_to_id@, text::texts(self.id_to_token@))
        &&& self.merge_rank.wf()
        &&& merges::ranks_merges(self.merge_rank@, merges::pairs_of(self.merges@))
    }

    /// Learns a vocabulary of `vocab_size` tokens from `text`.
    pub fn train(text: &str, vocab_size: usize) -> (r: Self)
        ensures
            r.wf(),
            r@.unk_id == 1,
            r@.special_tokens == reserved(),
            merges::learned(
                char_words(text@),
                initial_tokens(text@, text@),
                r@.merges,
                r@.tokens,
                vocab_size as nat,
            ),
    {
        Self::train_with_coverage(text, text, vocab_size)
    }

    /// Learns merges from `merge_text` on top of the characters of
    /// `coverage_text` and `merge_text`, until there are `vocab_size` tokens or
    /// nothing is left to merge.
    pub fn train_with_coverage(
        merge_text: &str,
        coverage_text: &str,
        vocab_size: usize,
    ) -> (r: Self)
        ensures
            r.wf(),
            r@.unk_id == 1,
            r@.special_tokens == reserved(),
            merges::learned(
                char_words(merge_text@),
                initial_tokens(coverage_text@, merge_text@),
                r@.merges,
                r@.tokens,
                vocab_size as nat,
            ),
    {
        let special_tokens: Vec<String> = Self::reserved_tokens();
        let mut id_to_token: Vec<String> = Vec::new();
        let mut token_to_id: StringHashMap<usize> = StringHashMap::new();
        proof {
            assert(text::texts(id_to_token@) =~= Seq::empty());
            assert(merges::indexes_tokens(token_to_id@, text::texts(id_to_token@)));
            lemma_reserved_are_distinct();
        }
        register(&mut id_to_token, &mut token_to_id, Self::PAD);
        register(&mut id_to_token, &mut token_to_id, Self::UNK);
        register(&mut id_to_token, &mut token_to_id, Self::BOS);
        register(&mut id_to_token, &mut token_to_id, Self::EOS);
        assert(text::texts(id_to_token@) =~= reserved());
        register_chars(&mut id_to_token, &mut token_to_id, coverage_text);
        register_chars(&mut id_to_token, &mut token_to_id, merge_text);
        let words: Vec<WordEntry> = Self::char_entries(merge_text);
        let mut merges: Vec<(String, String)> = Vec::new();
        let mut merge_rank: PairTable = PairTable::new();
        assert(merges::pairs_of(merges@) =~= Seq::empty());
        let run: Ghost<Seq<Pair>> = learn_merges(
            &mut id_to_token,
            &mut token_to_id,
            &mut merges,
            &mut merge_rank,
            words,
            vocab_size,
            true,
        );
        proof {
            merges::lemma_appended_whole(Seq::empty(), run@);
            assert(merges::pairs_of(merges@) =~= run@);
        }
        CharBpeTokenizer {
            id_to_token,
            token_to_id,
            merges,
            merge_rank,
            unk_id: 1,
            special_tokens,
        }
    }

    /// The reserved markers.
    fn reserved_tokens() -> (r: Vec<String>)
        ensures
            text::texts(r@) == reserved(),
    {
        let mut r: Vec<String> = Vec::new();
        r.push(Self::PAD.to_owned());
        r.push(Self::UNK.to_owned());
        r.push(Self::BOS.to_owned());
        r.push(Self::EOS.to_owned());
        assert(text::texts(r@) =~= reserved());
        r
    }

    /// The words of `s`, each split into its characters.
    fn char_entries(s: &str) -> (r: Vec<WordEntry>)
        ensures
            pairs::words_of(r@) == char_words(s@),
    {
        let pieces: Vec<String> = pretokenize(s);
        let freqs: Vec<WordFreq> = tally(&pieces);
        let mut r: Vec<WordEntry> = Vec::new();
        let mut i: usize = 0;
        while i < freqs.len()
            invariant
                i <= freqs@.len(),
                r@.len() == i,
                word_freq::tallies(freqs@, pretokens(s@)),
                forall|j: int| 0 <= j < i ==> #[trigger] r@[j]@ == char_words(s@)[j],
            decreases freqs@.len() - i,
        {
            let f: &WordFreq = &freqs[i];
            r.push(WordEntry { symbols: split_chars(f.word.as_str()), freq: f.freq });
            i += 1;
        }
        assert(pairs::words_of(r@) =~= char_words(s@));
        r
    }
}

/// The reserved markers differ from each other.
pub proof fn lemma_reserved_are_distinct()
    ensures
        reserved().no_duplicates(),
{
    reveal_strlit("<PAD>");
    reveal_strlit("<UNK>");
    reveal_strlit("<BOS>");
    reveal_strlit("<EOS>");
    assert("<PAD>"@[1] == 'P');
    assert("<UNK>"@[1] == 'U');
    assert("<BOS>"@[1] == 'B');
    assert("<EOS>"@[1] == 'E');
}

impl CharBpeModel {
    /// The tokenizer with one more special token.
    pub open spec fn with_special(self, token: Seq<char>) -> Self {
        CharBpeModel {
            tokens: merges::registered(self.tokens, token),
            special_tokens: if self.tokens.contains(token) {
                merges::registered(self.special_tokens, token)
            } else {
                self.special_tokens.push(token)
            },
            ..self
        }
    }

    /// The id of a token, `fallback` where the vocabulary lacks it.
    pub open spec fn id_or(self, token: Seq<char>, fallback: usize) -> usize {
        match merges::last_index(self.tokens, token) {
            Some(i) => i as usize,
            None => fallback,
        }
    }

    pub open spec fn bos_id(self) -> usize {
        self.id_or("<BOS>"@, 2)
    }

    pub open spec fn eos_id(self) -> usize {
        self.id_or("<EOS>"@, 3)
    }

    pub open spec fn pad_id(self) -> usize {
        self.id_or("<PAD>"@, 0)
    }

    /// A word as subwords: its characters with the merges applied.
    pub open spec fn encode_word(self, word: Seq<char>) -> Seq<Seq<char>> {
        merges::apply_merges(text::singletons(word), self.merges)
    }

    /// The ids of a list of subwords.
    pub open spec fn ids_of(self, symbols: Seq<Seq<char>>) -> Seq<usize> {
        Seq::new(symbols.len(), |i: int| self.id_or(symbols[i], self.unk_id))
    }

    /// The ids of a list of words.
    pub open spec fn encode_words(self, words: Seq<Seq<char>>) -> Seq<usize>
        decreases words.len(),
    {
        if words.len() == 0 {
            Seq::empty()
        } else {
            self.encode_words(words.drop_last()) + self.ids_of(self.encode_word(words.last()))
        }
    }

    /// The ids of a text in which no marker is recognised.
    pub open spec fn encode_segment(self, s: Seq<char>) -> Seq<usize> {
        self.encode_words(pretokens(s))
    }

    /// The ids of a text.
    ///
    /// What stands between a `<` and the next `>`, both taken in, is one token
    /// if it is a special token of the vocabulary. Otherwise the text up to and
    /// with that `<` is a segment, and the search goes on behind it.
    pub open spec fn encode_inner(self, s: Seq<char>) -> Seq<usize>
        decreases s.len(),
    {
        let lt = text::find_char(s, '<');
        let gt = text::find_char_from(s, '>', lt);
        proof {
            text::lemma_find_char(s, '<');
            text::lemma_find_char(s.skip(lt), '>');
        }
        if self.special_tokens.len() == 0 || gt >= s.len() {
            self.encode_segment(s)
        } else {
            let marker = s.subrange(lt, gt + 1);
            if self.special_tokens.contains(marker) && self.tokens.contains(marker) {
                self.encode_segment(s.take(lt)) + seq![self.id_or(marker, 0)]
                    + self.encode_inner(s.skip(gt + 1))
            } else {
                self.encode_segment(s.take(lt + 1)) + self.encode_inner(s.skip(lt + 1))
            }
        }
    }
}

impl CharBpeTokenizer {
    /// The id of `token`, or `fallback` where the vocabulary lacks it.
    fn id_or(&self, token: &str, fallback: usize) -> (r: usize)
        requires
            self.wf(),
        ensures
            r == self@.id_or(token@, fallback),
    {
        match self.token_to_id.get(token) {
            Some(id) => *id,
            None => fallback,
        }
    }

    /// Applies the learned merges to one word.
    pub fn encode_word(&self, word: &str) -> (r: Vec<String>)
        requires
            self.wf(),
        ensures
            text::texts(r@) == self@.encode_word(word@),
    {
        apply_merges_to(
            split_chars(word),
            &self.merge_rank,
            Ghost(merges::pairs_of(self.merges@)),
        )
    }

    /// Encodes a text in which no marker is recognised.
    pub fn encode_segment(&self, text: &str) -> (r: Vec<usize>)
        requires
            self.wf(),
        ensures
            r@ == self@.encode_segment(text@),
    {
        let words: Vec<String> = pretokenize(text);
        let ghost all = text::texts(words@);
        let mut ids: Vec<usize> = Vec::new();
        let mut i: usize = 0;
        assert(all.take(0) =~= Seq::empty());
        while i < words.len()
            invariant
                i <= words@.len(),
                all == text::texts(words@),
                self.wf(),
                ids@ == self@.encode_words(all.take(i as int)),
            decreases words@.len() - i,
        {
            let ghost before = ids@;
            let symbols: Vec<String> = self.encode_word(words[i].as_str());
            let mut j: usize = 0;
            while j < symbols.len()
                invariant
                    j <= symbols@.len(),
                    self.wf(),
                    ids@ == before + self@.ids_of(text::texts(symbols@)).take(j as int),
                decreases symbols@.len() - j,
            {
                ids.push(self.id_or(symbols[j].as_str(), self.unk_id));
                j += 1;
                assert(ids@ =~= before + self@.ids_of(text::texts(symbols@)).take(j as int));
            }
            i += 1;
            proof {
                let next = all.take(i as int);
                assert(next.drop_last() =~= all.take(i - 1));
                assert(ids@ =~= before + self@.ids_of(text::texts(symbols@)));
            }
        }
        assert(all.take(i as int) =~= all);
        ids
    }

    /// Encodes a text with its special tokens.
    pub fn encode_inner(&self, text: &str) -> (r: Vec<usize>)
        requires
            self.wf(),
        ensures
            r@ == self@.encode_inner(text@),
    {
        if self.special_tokens.len() == 0 {
            return self.encode_segment(text);
        }
        let chars: Vec<char> = chars_of(text);
        let n: usize = chars.len();
        let mut ids: Vec<usize> = Vec::new();
        let mut cursor: usize = 0;
        assert(chars@.skip(0) =~= chars@);
        assert(ids@ + self@.encode_inner(chars@.skip(0)) =~= self@.encode_inner(chars@));
        while cursor < n
            invariant
                cursor <= n == chars@.len(),
                self.wf(),
                self@.special_tokens.len() > 0,
                ids@ + self@.encode_inner(chars@.skip(cursor as int)) == self@.encode_inner(chars@),
            decreases n - cursor,
        {
            let ghost before = ids@;
            let ghost rest = chars@.skip(cursor as int);
            let lt: usize = position_of(&chars, '<', cursor);
            let gt: usize = position_of(&chars, '>', lt);
            assert(rest.skip(lt - cursor) =~= chars@.skip(lt as int));
            assert(text::find_char(rest, '<') == lt - cursor);
            if gt == n {
                let segment: String = string_of(&chars, cursor, n);
                assert(segment@ =~= rest);
                let mut tail: Vec<usize> = self.encode_segment(segment.as_str());
                ids.append(&mut tail);
                assert(self@.encode_inner(chars@.skip(n as int)) =~= Seq::empty()) by {
                    assert(chars@.skip(n as int) =~= Seq::empty());
                }
                assert(ids@ =~= before + self@.encode_segment(rest));
                cursor = n;
            } else {
                proof {
                    text::lemma_find_char(chars@.skip(lt as int), '>');
                }
                let marker: String = string_of(&chars, lt, gt + 1);
                assert(marker@ =~= rest.subrange(lt - cursor, gt - cursor + 1));
                let found: Option<usize> = match self.token_to_id.get(marker.as_str()) {
                    Some(id) => Some(*id),
                    None => None,
                };
                proof {
                    merges::lemma_last_index(self@.tokens, marker@);
                }
                let id: Option<usize> = match found {
                    Some(id) => {
                        if contains_text(&self.special_tokens, &marker) {
                            Some(id)
                        } else {
                            None
                        }
                    },
                    None => None,
                };
                let end: usize = if id.is_some() {
                    lt
                } else {
                    lt + 1
                };
                let segment: String = string_of(&chars, cursor, end);
                let mut part: Vec<usize> = self.encode_segment(segment.as_str());
                ids.append(&mut part);
                assert(segment@ =~= rest.take(end - cursor));
                match id {
                    Some(id) => {
                        ids.push(id);
                        assert(ids@ =~= before + (self@.encode_segment(rest.take(lt - cursor))
                            + seq![id]));
                        assert(rest.skip(gt - cursor + 1) =~= chars@.skip(gt + 1));
                        cursor = gt + 1;
                    },
                    None => {
                        assert(rest.skip(lt - cursor + 1) =~= chars@.skip(lt + 1));
                        cursor = lt + 1;
                    },
                }
                assert(ids@ + self@.encode_inner(chars@.skip(cursor as int)) =~= before
                    + self@.encode_inner(rest));
            }
        }
        assert(chars@.skip(n as int) =~= Seq::empty());
        assert(self@.encode_inner(chars@.skip(n as int)) =~= Seq::empty());
        ids
    }
}

impl CharBpeModel {
    /// The ids of a text for training: `<BOS>` in front and `<EOS>` behind,
    /// neither where the text brings it along.
    pub open spec fn encode_long(self, s: Seq<char>) -> Seq<usize> {
        let inner = self.encode_inner(s);
        let opened = if inner.len() > 0 && inner[0] == self.bos_id() {
            inner
        } else {
            seq![self.bos_id()] + inner
        };
        if opened.last() == self.eos_id() {
            opened
        } else {
            opened.push(self.eos_id())
        }
    }

    /// The ids of a prompt: `<BOS>` in front.
    pub open spec fn encode_prompt(self, s: Seq<char>) -> Seq<usize> {
        seq![self.bos_id()] + self.encode_inner(s)
    }

    /// The text of one id: nothing for an unknown id or a reserved marker.
    pub open spec fn text_of(self, id: usize) -> Seq<char> {
        if id < self.tokens.len() && !reserved().contains(self.tokens[id as int]) {
            self.tokens[id as int]
        } else {
            Seq::empty()
        }
    }

    /// The texts of all ids, joined.
    pub open spec fn decode(self, ids: Seq<usize>) -> Seq<char>
        decreases ids.len(),
    {
        if ids.len() == 0 {
            Seq::empty()
        } else {
            self.decode(ids.drop_last()) + self.text_of(ids.last())
        }
    }

    /// The words of a text as this tokenizer splits them.
    pub open spec fn subwords(self, s: Seq<char>) -> Seq<Word> {
        weighted(pretokens(s), |w: Seq<char>| self.encode_word(w))
    }

    /// The vocabulary with every symbol of `words` registered.
    pub open spec fn with_symbols(self, words: Seq<Word>) -> Seq<Seq<char>>
        decreases words.len(),
    {
        if words.len() == 0 {
            self.tokens
        } else {
            merges::registered_all(self.with_symbols(words.drop_last()), words.last().symbols)
        }
    }

    /// `run` was learned on the words of `s`, as this tokenizer splits them, until
    /// there were `size` tokens, and `after` has what it brought.
    pub open spec fn extends_by(self, after: Self, s: Seq<char>, size: nat, run: Seq<Pair>) -> bool {
        let words = self.subwords(s);
        &&& after.unk_id == self.unk_id
        &&& after.special_tokens == self.special_tokens
        &&& after.merges == merges::appended(self.merges, run)
        &&& merges::learned(words, self.with_symbols(words), run, after.tokens, size)
    }

    /// `after` is what learning further merges from `s` makes of this tokenizer. One
    /// that has `size` tokens already stays as it is.
    pub open spec fn extends_to(self, after: Self, s: Seq<char>, size: nat) -> bool {
        if size <= self.tokens.len() {
            after == self
        } else {
            exists|run: Seq<Pair>| self.extends_by(after, s, size, run)
        }
    }
}

impl CharBpeTokenizer {
    pub fn vocab_size(&self) -> (r: usize)
        ensures
            r == self@.tokens.len(),
    {
        self.id_to_token.len()
    }

    pub fn pad_id(&self) -> (r: usize)
        requires
            self.wf(),
        ensures
            r == self@.pad_id(),
    {
        self.id_or(Self::PAD, 0)
    }

    pub fn bos_id(&self) -> (r: usize)
        requires
            self.wf(),
        ensures
            r == self@.bos_id(),
    {
        self.id_or(Self::BOS, 2)
    }

    pub fn eos_id(&self) -> (r: usize)
        requires
            self.wf(),
        ensures
            r == self@.eos_id(),
    {
        self.id_or(Self::EOS, 3)
    }

    /// A tokenizer without any token.
    pub fn empty() -> (r: Self)
        ensures
            r.wf(),
            r@ == (CharBpeModel {
                tokens: Seq::empty(),
                merges: Seq::empty(),
                unk_id: 0,
                special_tokens: Seq::empty(),
            }),
    {
        let r = CharBpeTokenizer {
            id_to_token: Vec::new(),
            token_to_id: StringHashMap::new(),
            merges: Vec::new(),
            merge_rank: PairTable::new(),
            unk_id: 0,
            special_tokens: Vec::new(),
        };
        assert(r@.tokens =~= Seq::empty());
        assert(r@.merges =~= Seq::empty());
        assert(r@.special_tokens =~= Seq::empty());
        r
    }

    /// Encodes a text for training.
    pub fn encode_long(&self, text: &str) -> (r: Vec<usize>)
        requires
            self.wf(),
        ensures
            r@ == self@.encode_long(text@),
    {
        let mut inner: Vec<usize> = self.encode_inner(text);
        let bos: usize = self.bos_id();
        let eos: usize = self.eos_id();
        let mut ids: Vec<usize> = Vec::new();
        if !(inner.len() > 0 && inner[0] == bos) {
            ids.push(bos);
        }
        ids.append(&mut inner);
        assert(ids@ =~= if self@.encode_inner(text@).len() > 0 && self@.encode_inner(text@)[0]
            == bos {
            self@.encode_inner(text@)
        } else {
            seq![bos] + self@.encode_inner(text@)
        });
        if ids[ids.len() - 1] != eos {
            ids.push(eos);
        }
        ids
    }

    /// Encodes a prompt.
    pub fn encode_prompt(&self, text: &str) -> (r: Vec<usize>)
        requires
            self.wf(),
        ensures
            r@ == self@.encode_prompt(text@),
    {
        let mut ids: Vec<usize> = Vec::new();
        ids.push(self.bos_id());
        let mut inner: Vec<usize> = self.encode_inner(text);
        ids.append(&mut inner);
        assert(ids@ =~= self@.encode_prompt(text@));
        ids
    }

    /// Joins the tokens, leaving out the reserved markers and unknown ids.
    pub fn decode(&self, ids: &[usize]) -> (r: String)
        ensures
            r@ == self@.decode(ids@),
    {
        let reserved_tokens: Vec<String> = Self::reserved_tokens();
        let mut out: String = String::new();
        let mut i: usize = 0;
        assert(ids@.take(0) =~= Seq::empty());
        while i < ids.len()
            invariant
                i <= ids@.len(),
                text::texts(reserved_tokens@) == reserved(),
                out@ == self@.decode(ids@.take(i as int)),
            decreases ids@.len() - i,
        {
            let ghost before = out@;
            let id: usize = ids[i];
            if id < self.id_to_token.len() && !contains_text(&reserved_tokens, &self.id_to_token[id]) {
                out.append(self.id_to_token[id].as_str());
            }
            i += 1;
            proof {
                let next = ids@.take(i as int);
                assert(next.drop_last() =~= ids@.take(i - 1));
                assert(out@ =~= before + self@.text_of(id));
            }
        }
        assert(ids@.take(i as int) =~= ids@);
        out
    }

    /// The number of learned merges.
    pub fn num_merges(&self) -> (r: usize)
        ensures
            r == self@.merges.len(),
    {
        self.merges.len()
    }

    /// The learned merges, in the order of their ranks.
    pub fn merges_for_debug(&self) -> (r: &[(String, String)])
        ensures
            merges::pairs_of(r@) == self@.merges,
    {
        self.merges.as_slice()
    }

    /// All special tokens: the reserved markers and those added later.
    pub fn special_tokens(&self) -> (r: &[String])
        ensures
            text::texts(r@) == self@.special_tokens,
    {
        self.special_tokens.as_slice()
    }

    /// Makes `token` a special token and returns its id.
    pub fn add_special_token(&mut self, token: &str) -> (id: usize)
        requires
            old(self).wf(),
        ensures
            final(self).wf(),
            final(self)@ == old(self)@.with_special(token@),
            Some(id as int) == merges::last_index(final(self)@.tokens, token@),
    {
        let ghost tokens0 = self@.tokens;
        proof {
            merges::lemma_last_index(tokens0, token@);
        }
        let found: Option<usize> = match self.token_to_id.get(token) {
            Some(id) => Some(*id),
            None => None,
        };
        let owned: String = token.to_owned();
        match found {
            Some(id) => {
                if !contains_text(&self.special_tokens, &owned) {
                    self.special_tokens.push(owned);
                    assert(self@.special_tokens =~= old(self)@.special_tokens.push(token@));
                }
                id
            },
            None => {
                let id: usize = self.id_to_token.len();
                register(&mut self.id_to_token, &mut self.token_to_id, token);
                self.special_tokens.push(owned);
                assert(self@.special_tokens =~= old(self)@.special_tokens.push(token@));
                id
            },
        }
    }

    /// Adds the characters of `additional_text` to the vocabulary.
    pub fn extend_coverage(&mut self, additional_text: &str)
        requires
            old(self).wf(),
        ensures
            final(self).wf(),
            final(self)@ == (CharBpeModel {
                tokens: merges::registered_all(
                    old(self)@.tokens,
                    text::singletons(additional_text@),
                ),
                ..old(self)@
            }),
    {
        register_chars(&mut self.id_to_token, &mut self.token_to_id, additional_text);
    }

    /// Learns further merges from `additional_merge_text`, starting from words
    /// split by the merges known so far, until there are `new_vocab_size`
    /// tokens or nothing is left to merge. The merges known so far keep their
    /// ranks, and new ones come behind them.
    pub fn extend_merges(&mut self, additional_merge_text: &str, new_vocab_size: usize)
        requires
            old(self).wf(),
        ensures
            final(self).wf(),
            old(self)@.extends_to(final(self)@, additional_merge_text@, new_vocab_size as nat),
            old(self)@.merges.is_prefix_of(final(self)@.merges),
            forall|p: Pair|
                old(self)@.merges.contains(p) ==> #[trigger] merges::last_index(
                    final(self)@.merges,
                    p,
                ) == merges::last_index(old(self)@.merges, p),
    {
        if new_vocab_size <= self.id_to_token.len() {
            return;
        }
        let ghost model = self@;
        let words: Vec<WordEntry> = self.subword_entries(additional_merge_text);
        let ghost all = pairs::words_of(words@);
        let mut i: usize = 0;
        assert(all.take(0) =~= Seq::empty());
        while i < words.len()
            invariant
                i <= words@.len(),
                all == pairs::words_of(words@),
                self.wf(),
                self@ == (CharBpeModel { tokens: model.with_symbols(all.take(i as int)), ..model }),
            decreases words@.len() - i,
        {
            let symbols: &Vec<String> = &words[i].symbols;
            let ghost before = self@.tokens;
            let ghost list = text::texts(symbols@);
            let mut j: usize = 0;
            assert(list.take(0) =~= Seq::empty());
            while j < symbols.len()
                invariant
                    j <= symbols@.len(),
                    list == text::texts(symbols@),
                    self.wf(),
                    self@ == (CharBpeModel {
                        tokens: merges::registered_all(before, list.take(j as int)),
                        ..model
                    }),
                decreases symbols@.len() - j,
            {
                register(&mut self.id_to_token, &mut self.token_to_id, symbols[j].as_str());
                j += 1;
                assert(list.take(j as int).drop_last() =~= list.take(j - 1));
            }
            i += 1;
            proof {
                assert(list.take(j as int) =~= list);
                assert(all.take(i as int).drop_last() =~= all.take(i - 1));
            }
        }
        assert(all.take(i as int) =~= all);
        let run: Ghost<Seq<Pair>> = learn_merges(
            &mut self.id_to_token,
            &mut self.token_to_id,
            &mut self.merges,
            &mut self.merge_rank,
            words,
            new_vocab_size,
            true,
        );
        proof {
            merges::lemma_appended(model.merges, run@);
            assert(model.extends_by(self@, additional_merge_text@, new_vocab_size as nat, run@));
        }
    }

    /// The words of `s`, each split by the merges known so far.
    fn subword_entries(&self, s: &str) -> (r: Vec<WordEntry>)
        requires
            self.wf(),
        ensures
            pairs::words_of(r@) == self@.subwords(s@),
    {
        let pieces: Vec<String> = pretokenize(s);
        let freqs: Vec<WordFreq> = tally(&pieces);
        let mut r: Vec<WordEntry> = Vec::new();
        let mut i: usize = 0;
        while i < freqs.len()
            invariant
                i <= freqs@.len(),
                r@.len() == i,
                self.wf(),
                word_freq::tallies(freqs@, pretokens(s@)),
                forall|j: int| 0 <= j < i ==> #[trigger] r@[j]@ == self@.subwords(s@)[j],
            decreases freqs@.len() - i,
        {
            let f: &WordFreq = &freqs[i];
            r.push(WordEntry { symbols: self.encode_word(f.word.as_str()), freq: f.freq });
            i += 1;
        }
        assert(pairs::words_of(r@) =~= self@.subwords(s@));
        r
    }
}

impl CharBpeModel {
    /// What a checkpoint of the tokenizer holds.
    pub open spec fn weights(self) -> Weights {
        Weights::empty().with(Record::Scalar("kind"@, TokenizerKind::CharBpe.code())).with(
            Record::Strings("id_to_token"@, self.tokens),
        ).with(Record::Scalar("unk_id"@, self.unk_id as u64)).with(
            Record::Strings("merges"@, stored::flattened(self.merges)),
        ).with(Record::Strings("special_tokens"@, self.special_tokens))
    }

    /// The tokenizer that a checkpoint holds. One without special tokens has
    /// the reserved markers.
    pub open spec fn of_weights(w: Weights) -> Self {
        CharBpeModel {
            tokens: w.strings["id_to_token"@],
            merges: stored::unflattened(w.strings["merges"@]),
            unk_id: w.scalars["unk_id"@] as usize,
            special_tokens: if w.strings.contains_key("special_tokens"@) {
                w.strings["special_tokens"@]
            } else {
                reserved()
            },
        }
    }
}

impl Checkpointable for CharBpeTokenizer {
    open spec fn valid(&self) -> bool {
        self.wf()
    }

    open spec fn weights(&self) -> Weights {
        self@.weights()
    }

    fn to_weight_map(&self) -> (r: WeightMap) {
        let mut map: WeightMap = WeightMap::new();
        map.insert_scalar("kind", TokenizerKind::CharBpe.as_u64());
        let tokens: Vec<String> = copy_strings(&self.id_to_token);
        let flat: Vec<String> = flatten_pairs(&self.merges);
        let special_tokens: Vec<String> = copy_strings(&self.special_tokens);
        proof {
            assert(tokens.deep_view() =~= self@.tokens);
            assert(flat.deep_view() =~= stored::flattened(self@.merges));
            assert(special_tokens.deep_view() =~= self@.special_tokens);
        }
        map.insert_strings("id_to_token", tokens);
        map.insert_scalar("unk_id", self.unk_id as u64);
        map.insert_strings("merges", flat);
        map.insert_strings("special_tokens", special_tokens);
        map
    }

    fn from_weight_map(&mut self, map: &WeightMap) -> (r: Result<(), DataError>)
        ensures
            match r {
                Ok(_) => stored::loadable(map@) && final(self)@ == CharBpeModel::of_weights(map@),
                Err(e) => stored::load_error(map@, e) && *final(self) == *old(self),
            },
    {
        let tokens: &Vec<String> = match map.get_strings("id_to_token") {
            Ok(v) => v,
            Err(e) => {
                return Err(e);
            },
        };
        let unk_id: u64 = match map.get_scalar("unk_id") {
            Ok(v) => v,
            Err(e) => {
                return Err(e);
            },
        };
        let flat: &Vec<String> = match map.get_strings("merges") {
            Ok(v) => v,
            Err(e) => {
                return Err(e);
            },
        };
        assert(flat.deep_view() =~= text::texts(flat@));
        if flat.len() % 2 != 0 {
            return Err(DataError::OddMerges);
        }
        let special_tokens: Vec<String> = match map.get_strings("special_tokens") {
            Ok(v) => {
                assert(v.deep_view() =~= text::texts(v@));
                copy_strings(v)
            },
            Err(_) => Self::reserved_tokens(),
        };
        assert(tokens.deep_view() =~= text::texts(tokens@));
        self.id_to_token = copy_strings(tokens);
        self.token_to_id = index_tokens(&self.id_to_token);
        self.merges = pairs_from_flat(flat);
        self.merge_rank = rank_pairs(&self.merges);
        self.unk_id = unk_id as usize;
        self.special_tokens = special_tokens;
        Ok(())
    }
}

impl Tokenizer for CharBpeTokenizer {
    open spec fn ready(&self) -> bool {
        self.wf()
    }

    open spec fn size(&self) -> nat {
        self@.tokens.len()
    }

    open spec fn pad(&self) -> usize {
        self@.pad_id()
    }

    open spec fn eos(&self) -> usize {
        self@.eos_id()
    }

    open spec fn long_ids(&self, s: Seq<char>) -> Seq<usize> {
        self@.encode_long(s)
    }

    open spec fn prompt_ids(&self, s: Seq<char>) -> Seq<usize> {
        self@.encode_prompt(s)
    }

    open spec fn decodable(&self, ids: Seq<usize>) -> bool {
        true
    }

    open spec fn decoded(&self, ids: Seq<usize>) -> Seq<char> {
        self@.decode(ids)
    }

    open spec fn kind_of(&self) -> TokenizerKind {
        TokenizerKind::CharBpe
    }

    open spec fn stored(&self) -> Weights {
        self@.weights()
    }

    fn vocab_size(&self) -> (r: usize) {
        CharBpeTokenizer::vocab_size(self)
    }

    fn pad_id(&self) -> (r: usize) {
        CharBpeTokenizer::pad_id(self)
    }

    fn eos_id(&self) -> (r: usize) {
        CharBpeTokenizer::eos_id(self)
    }

    fn encode_long(&self, text: &str) -> (r: Vec<usize>) {
        CharBpeTokenizer::encode_long(self, text)
    }

    fn encode_prompt(&self, text: &str) -> (r: Vec<usize>) {
        CharBpeTokenizer::encode_prompt(self, text)
    }

    fn can_decode(&self, ids: &[usize]) -> (r: bool) {
        true
    }

    fn decode(&self, ids: &[usize]) -> (r: String) {
        CharBpeTokenizer::decode(self, ids)
    }

    fn kind(&self) -> (r: TokenizerKind) {
        TokenizerKind::CharBpe
    }

    fn to_weight_map(&self) -> (r: WeightMap) {
        Checkpointable::to_weight_map(self)
    }
}

} // verus!
