//! Byte-pair encoding over the bytes of lower-case words.
//!
//! A byte is written as `b` and three digits, and the last byte of a word ends
//! with `</w>`. Decoding puts one space between words.

use vstd::hash_map::StringHashMap;
use vstd::prelude::*;

use crate::checkpoint::{Checkpointable, Record, WeightMap, Weights};
use crate::error::DataError;
use crate::merges::{self, apply_merges_to, learn_merges};
use crate::pair_table::{Pair, PairTable};
use crate::pairs::{self, Word, WordEntry};
use crate::stored::{self, copy_strings, flatten_pairs, index_tokens, pairs_from_flat, rank_pairs};
use crate::text::{self, chars_of, contains_text, join_with, split_white_space, string_of, trimmed, CharClass};
use crate::tokenizer::{Tokenizer, TokenizerKind};
use crate::word_freq::{self, tally, WordFreq};

verus! {

/// A text in lower case, as `str::to_lowercase` gives it.
pub uninterp spec fn lowercase(s: Seq<char>) -> Seq<char>;

/// `str::to_lowercase` maps a text by the Unicode rules for lower case, with no
/// regard to a locale. What it gives is named, not spelled out.
pub assume_specification[ str::to_lowercase ](s: &str) -> (r: String)
    ensures
        r@ == lowercase(s@),
;

/// The text that `String::from_utf8_lossy` gives for bytes that are not UTF-8.
pub uninterp spec fn repaired(b: Seq<u8>) -> Seq<char>;

/// The text of bytes: what they encode, or a repaired text where they are not
/// UTF-8.
pub open spec fn utf8_lossy(b: Seq<u8>) -> Seq<char> {
    if vstd::utf8::valid_utf8(b) {
        vstd::utf8::decode_utf8(b)
    } else {
        repaired(b)
    }
}

/// `String::from_utf8_lossy` gives valid UTF-8 as the text it encodes. What it
/// makes of other bytes is named, not spelled out.
#[verifier::external_body]
fn lossy_string(bytes: &Vec<u8>) -> (r: String)
    ensures
        r@ == (if vstd::utf8::valid_utf8(bytes@) {
            vstd::utf8::decode_utf8(bytes@)
        } else {
            repaired(bytes@)
        }),
{
    String::from_utf8_lossy(bytes).into_owned()
}

/// The value of a decimal digit.
pub open spec fn digit_value(c: char) -> Option<int> {
    if c == '0' {
        Some(0)
    } else if c == '1' {
        Some(1)
    } else if c == '2' {
        Some(2)
    } else if c == '3' {
        Some(3)
    } else if c == '4' {
        Some(4)
    } else if c == '5' {
        Some(5)
    } else if c == '6' {
        Some(6)
    } else if c == '7' {
        Some(7)
    } else if c == '8' {
        Some(8)
    } else if c == '9' {
        Some(9)
    } else {
        None
    }
}

/// The token of a byte: `b` and three digits.
pub open spec fn byte_text(b: u8) -> Seq<char> {
    seq!['b', text::digit(b as int / 100), text::digit((b as int / 10) % 10), text::digit(b as int % 10)]
}

/// The marker of the end of a word.
pub open spec fn word_end() -> Seq<char> {
    "</w>"@
}

/// The symbols of a word: its bytes, the last with the end marker.
pub open spec fn byte_symbols(bytes: Seq<u8>) -> Seq<Seq<char>> {
    Seq::new(
        bytes.len(),
        |i: int|
            if i == bytes.len() - 1 {
                byte_text(bytes[i]) + word_end()
            } else {
                byte_text(bytes[i])
            },
    )
}

/// The symbols of a word.
pub open spec fn word_symbols(w: Seq<char>) -> Seq<Seq<char>> {
    byte_symbols(vstd::utf8::encode_utf8(w))
}

/// The tokens of all bytes, each first within a word and then at its end.
pub open spec fn all_byte_tokens() -> Seq<Seq<char>> {
    Seq::new(
        512,
        |i: int|
            if i % 2 == 0 {
                byte_text((i / 2) as u8)
            } else {
                byte_text((i / 2) as u8) + word_end()
            },
    )
}

/// The vocabulary before any merge.
pub open spec fn initial_tokens() -> Seq<Seq<char>> {
    seq!["<PAD>"@, "<UNK>"@, "<BOS>"@, "<EOS>"@] + all_byte_tokens()
}

/// The words of a text in lower case.
pub open spec fn lower_words(s: Seq<char>) -> Seq<Seq<char>> {
    kept(Seq::new(text::words(s).len(), |i: int| lowercase(text::words(s)[i])))
}

/// The texts of a list that are not empty.
pub open spec fn kept(list: Seq<Seq<char>>) -> Seq<Seq<char>>
    decreases list.len(),
{
    if list.len() == 0 {
        Seq::empty()
    } else if list.last().len() == 0 {
        kept(list.drop_last())
    } else {
        kept(list.drop_last()).push(list.last())
    }
}

/// The words of all texts in lower case.
pub open spec fn corpus_words(corpus: Seq<&str>) -> Seq<Seq<char>>
    decreases corpus.len(),
{
    if corpus.len() == 0 {
        Seq::empty()
    } else {
        corpus_words(corpus.drop_last()) + lower_words(corpus.last()@)
    }
}

/// The different words of a list as symbols, weighted by their occurrences.
pub open spec fn weighted_words(words: Seq<Seq<char>>) -> Seq<Word> {
    Seq::new(
        word_freq::distinct(words).len(),
        |i: int|
            Word {
                symbols: word_symbols(word_freq::distinct(words)[i]),
                freq: word_freq::occurrences(words, word_freq::distinct(words)[i]),
            },
    )
}

/// The token of a byte.
pub fn byte_token(b: u8) -> (r: String)
    ensures
        r@ == byte_text(b),
{
    let mut r: String = String::new();
    r.push('b');
    r.push(text::digit_char(b / 100));
    r.push(text::digit_char((b / 10) % 10));
    r.push(text::digit_char(b % 10));
    assert(r@ =~= byte_text(b));
    r
}

/// Splits a word into its bytes; the last one carries the end marker.
pub fn split_word_bytes(word: &str) -> (r: Vec<String>)
    ensures
        text::texts(r@) == word_symbols(word@),
{
    let bytes: &[u8] = word.as_bytes();
    let n: usize = bytes.len();
    let mut r: Vec<String> = Vec::new();
    let mut i: usize = 0;
    while i < n
        invariant
            i <= n == bytes@.len(),
            bytes@ == vstd::utf8::encode_utf8(word@),
            r@.len() == i,
            forall|k: int| 0 <= k < i ==> (#[trigger] r@[k])@ == word_symbols(word@)[k],
        decreases n - i,
    {
        let token: String = byte_token(bytes[i]);
        if i == n - 1 {
            r.push(token.concat("</w>"));
        } else {
            r.push(token);
        }
        i += 1;
    }
    assert(text::texts(r@) =~= word_symbols(word@));
    r
}

/// Appends the words of `s` in lower case.
fn push_lower_words(list: &mut Vec<String>, s: &str)
    ensures
        text::texts(final(list)@) == text::texts(old(list)@) + lower_words(s@),
{
    let words: Vec<String> = split_white_space(s);
    let ghost before = text::texts(list@);
    let ghost lowered = Seq::new(text::words(s@).len(), |i: int| lowercase(text::words(s@)[i]));
    let mut i: usize = 0;
    assert(lowered.take(0) =~= Seq::empty());
    assert(text::texts(list@) =~= before + kept(lowered.take(0)));
    while i < words.len()
        invariant
            i <= words@.len(),
            text::texts(words@) == text::words(s@),
            lowered == Seq::new(text::words(s@).len(), |i: int| lowercase(text::words(s@)[i])),
            text::texts(list@) == before + kept(lowered.take(i as int)),
        decreases words@.len() - i,
    {
        let ghost list0 = list@;
        assert(text::texts(words@)[i as int] == words@[i as int]@);
        let word: String = words[i].as_str().to_lowercase();
        i += 1;
        assert(lowered.take(i as int).drop_last() =~= lowered.take(i - 1));
        if !word.as_str().is_empty() {
            list.push(word);
            assert(text::texts(list@) =~= text::texts(list0).push(word@));
        }
        assert(text::texts(list@) =~= before + kept(lowered.take(i as int)));
    }
    assert(lowered.take(i as int) =~= lowered);
}

/// Counts the words of all texts in lower case.
pub fn build_word_freq(corpus: &[&str]) -> (r: Vec<WordFreq>)
    ensures
        word_freq::tallies(r@, corpus_words(corpus@)),
{
    let mut list: Vec<String> = Vec::new();
    let mut i: usize = 0;
    assert(corpus@.take(0) =~= Seq::empty());
    assert(text::texts(list@) =~= corpus_words(corpus@.take(0)));
    while i < corpus.len()
        invariant
            i <= corpus@.len(),
            text::texts(list@) == corpus_words(corpus@.take(i as int)),
        decreases corpus@.len() - i,
    {
        push_lower_words(&mut list, corpus[i]);
        i += 1;
        assert(corpus@.take(i as int).drop_last() =~= corpus@.take(i - 1));
    }
    assert(corpus@.take(i as int) =~= corpus@);
    tally(&list)
}

/// What a `BpeTokenizer` stands for.
#[verifier::ext_equal]
pub struct BpeModel {
    /// The tokens, in the order of their ids.
    pub tokens: Seq<Seq<char>>,
    /// The learned pairs, in the order of their ranks.
    pub merges: Seq<Pair>,
    /// The id of a symbol that is no token.
    pub unk_id: usize,
}

/// What decoding has found so far: the words that ended, and the bytes of the
/// word that has not.
#[verifier::ext_equal]
pub struct Decoded {
    pub words: Seq<Seq<char>>,
    pub current: Seq<u8>,
}

impl BpeModel {
    /// The id of a token, `fallback` where the vocabulary lacks it.
    pub open spec fn id_or(self, token: Seq<char>, fallback: usize) -> usize {
        match merges::last_index(self.tokens, token) {
            Some(i) => i as usize,
            None => fallback,
        }
    }

    pub open spec fn pad_id(self) -> usize {
        self.id_or("<PAD>"@, 0)
    }

    pub open spec fn bos_id(self) -> usize {
        self.id_or("<BOS>"@, 2)
    }

    pub open spec fn eos_id(self) -> usize {
        self.id_or("<EOS>"@, 3)
    }

    /// A word as subwords: its bytes with the merges applied.
    pub open spec fn encode_word(self, word: Seq<char>) -> Seq<Seq<char>> {
        merges::apply_merges(word_symbols(word), self.merges)
    }

    /// The ids of a list of subwords.
    pub open spec fn ids_of(self, symbols: Seq<Seq<char>>) -> Seq<usize> {
        Seq::new(symbols.len(), |i: int| self.id_or(symbols[i], self.unk_id))
    }

    /// The ids of words whose ASCII punctuation is trimmed off.
    pub open spec fn encode_words(self, words: Seq<Seq<char>>) -> Seq<usize>
        decreases words.len(),
    {
        if words.len() == 0 {
            Seq::empty()
        } else {
            let word = text::trim(words.last(), CharClass::AsciiPunctuation);
            self.encode_words(words.drop_last()) + (if word.len() == 0 {
                Seq::empty()
            } else {
                self.ids_of(self.encode_word(word))
            })
        }
    }

    /// The ids of a text between `<BOS>` and `<EOS>`.
    pub open spec fn encode(self, s: Seq<char>) -> Seq<usize> {
        seq![self.bos_id()] + self.encode_words(text::words(s)) + seq![self.eos_id()]
    }

    /// The ids of a prompt: without the closing `<EOS>`.
    pub open spec fn encode_prompt(self, s: Seq<char>) -> Seq<usize> {
        seq![self.bos_id()] + self.encode_words(text::words(s))
    }

    /// What decoding has found after one more id.
    pub open spec fn decode_next(self, d: Decoded, id: usize) -> Decoded {
        if id >= self.tokens.len() || is_reserved(self.tokens[id as int]) {
            d
        } else {
            let token = self.tokens[id as int];
            let bytes = d.current + token_bytes(body(token));
            if ends_word(token) {
                Decoded { words: d.words.push(utf8_lossy(bytes)), current: Seq::empty() }
            } else {
                Decoded { current: bytes, ..d }
            }
        }
    }

    /// What decoding has found after all ids.
    pub open spec fn decode_all(self, ids: Seq<usize>) -> Decoded
        decreases ids.len(),
    {
        if ids.len() == 0 {
            Decoded { words: Seq::empty(), current: Seq::empty() }
        } else {
            self.decode_next(self.decode_all(ids.drop_last()), ids.last())
        }
    }

    /// The decoded words with spaces between them. Bytes behind the last end of
    /// a word are a word too.
    pub open spec fn decode(self, ids: Seq<usize>) -> Seq<char> {
        let d = self.decode_all(ids);
        text::joined_with(
            if d.current.len() == 0 {
                d.words
            } else {
                d.words.push(utf8_lossy(d.current))
            },
            " "@,
        )
    }

    /// The tokens of the ids can be cut into bytes.
    pub open spec fn decodable(self, ids: Seq<usize>) -> bool {
        forall|i: int|
            0 <= i < ids.len() && (#[trigger] ids[i]) < self.tokens.len() && !is_reserved(
                self.tokens[ids[i] as int],
            ) ==> sliceable(body(self.tokens[ids[i] as int]))
    }
}

/// The token is one of the reserved markers.
pub open spec fn is_reserved(t: Seq<char>) -> bool {
    t == "<PAD>"@ || t == "<UNK>"@ || t == "<BOS>"@ || t == "<EOS>"@
}

/// The token ends a word.
pub open spec fn ends_word(t: Seq<char>) -> bool {
    t.len() >= 4 && t.skip(t.len() - 4) == word_end()
}

/// The token without its end markers.
pub open spec fn body(t: Seq<char>) -> Seq<char>
    decreases t.len(),
{
    if ends_word(t) {
        body(t.take(t.len() - 4))
    } else {
        t
    }
}

/// The number that three characters spell, if it is that of a byte. A plus sign
/// may stand in the first place.
pub open spec fn spelled(a: char, b: char, c: char) -> Option<u8> {
    match (digit_value(a), digit_value(b), digit_value(c)) {
        (Some(x), Some(y), Some(z)) => if 100 * x + 10 * y + z <= 255 {
            Some((100 * x + 10 * y + z) as u8)
        } else {
            None
        },
        (None, Some(y), Some(z)) => if a == '+' {
            Some((10 * y + z) as u8)
        } else {
            None
        },
        _ => None,
    }
}

/// The text starts with a `b` and the number of a byte.
pub open spec fn starts_with_byte(t: Seq<char>) -> bool {
    t.len() >= 4 && t[0] == 'b' && spelled(t[1], t[2], t[3]) is Some
}

/// The bytes that the text spells, up to the first place where it spells none.
pub open spec fn token_bytes(t: Seq<char>) -> Seq<u8>
    decreases t.len(),
{
    if starts_with_byte(t) {
        seq![spelled(t[1], t[2], t[3])->0] + token_bytes(t.skip(4))
    } else {
        Seq::empty()
    }
}

/// Wherever the text goes on with a `b` and three more bytes, these bytes end
/// with a character.
pub open spec fn sliceable(t: Seq<char>) -> bool
    decreases t.len(),
{
    if t.len() > 0 && t[0] == 'b' && vstd::utf8::encode_utf8(t).len() >= 4 {
        if starts_with_byte(t) {
            sliceable(t.skip(4))
        } else {
            exists|k: int|
                0 <= k <= t.len() && #[trigger] vstd::utf8::encode_utf8(t.take(k)).len() == 4
        }
    } else {
        true
    }
}

/// A byte-pair tokenizer whose smallest symbols are bytes.
pub struct BpeTokenizer {
    id_to_token: Vec<String>,
    token_to_id: StringHashMap<usize>,
    merges: Vec<(String, String)>,
    merge_rank: PairTable,
    unk_id: usize,
}

impl View for BpeTokenizer {
    type V = BpeModel;

    closed spec fn view(&self) -> BpeModel {
        BpeModel {
            tokens: text::texts(self.id_to_token@),
            merges: merges::pairs_of(self.merges@),
            unk_id: self.unk_id,
        }
    }
}

/// The vocabulary before any merge.
fn start_tokens() -> (r: Vec<String>)
    ensures
        text::texts(r@) == initial_tokens(),
{
    let mut r: Vec<String> = Vec::new();
    r.push(BpeTokenizer::PAD.to_owned());
    r.push(BpeTokenizer::UNK.to_owned());
    r.push(BpeTokenizer::BOS.to_owned());
    r.push(BpeTokenizer::EOS.to_owned());
    let mut b: u16 = 0;
    while b < 256
        invariant
            b <= 256,
            r@.len() == 4 + 2 * b,
            forall|k: int| 0 <= k < r@.len() ==> (#[trigger] r@[k])@ == initial_tokens()[k],
        decreases 256 - b,
    {
        let token: String = byte_token(b as u8);
        r.push(token.clone());
        r.push(token.concat("</w>"));
        b += 1;
    }
    assert(text::texts(r@) =~= initial_tokens());
    r
}

impl BpeTokenizer {
    pub const PAD: &'static str = "<PAD>";

    pub const UNK: &'static str = "<UNK>";

    pub const BOS: &'static str = "<BOS>";

    pub const EOS: &'static str = "<EOS>";

    /// Every token is found under its last id, and every merged pair under its
    /// last rank.
    pub closed spec fn wf(&self) -> bool {
        &&& merges::indexes_tokens(self.token_to_id@, text::texts(self.id_to_token@))
        &&& self.merge_rank.wf()
        &&& merges::ranks_merges(self.merge_rank@, merges::pairs_of(self.merges@))
    }

    /// Learns merges from the words of `corpus`, in lower case, until there are
    /// `vocab_size` tokens or nothing is left to merge.
    pub fn train(corpus: &[&str], vocab_size: usize) -> (r: Self)
        ensures
            r.wf(),
            r@.unk_id == 1,
            merges::learned(
                weighted_words(corpus_words(corpus@)),
                initial_tokens(),
                r@.merges,
                r@.tokens,
                vocab_size as nat,
            ),
    {
        let mut id_to_token: Vec<String> = start_tokens();
        let mut token_to_id: StringHashMap<usize> = index_tokens(&id_to_token);
        let freqs: Vec<WordFreq> = build_word_freq(corpus);
        let ghost list = corpus_words(corpus@);
        let mut words: Vec<WordEntry> = Vec::new();
        let mut i: usize = 0;
        while i < freqs.len()
            invariant
                i <= freqs@.len(),
                words@.len() == i,
                word_freq::tallies(freqs@, list),
                forall|j: int| 0 <= j < i ==> #[trigger] words@[j]@ == weighted_words(list)[j],
            decreases freqs@.len() - i,
        {
            let f: &WordFreq = &freqs[i];
            words.push(WordEntry { symbols: split_word_bytes(f.word.as_str()), freq: f.freq });
            i += 1;
        }
        assert(pairs::words_of(words@) =~= weighted_words(list));
        let mut merges: Vec<(String, String)> = Vec::new();
        let mut merge_rank: PairTable = PairTable::new();
        assert(merges::pairs_of(merges@) =~= Seq::empty());
        let run: Ghost<Seq<Pair>> = learn_merges(
            &mut id_to_token,
            &mut token_to_id,
            &mut merges,
            &mut merge_rank,
            words,
            vocab_size,
            false,
        );
        proof {
            merges::lemma_appended_whole(Seq::empty(), run@);
            assert(merges::pairs_of(merges@) =~= run@);
        }
        BpeTokenizer { id_to_token, token_to_id, merges, merge_rank, unk_id: 1 }
    }

    /// A tokenizer without any token.
    pub fn empty() -> (r: Self)
        ensures
            r.wf(),
            r@ == (BpeModel { tokens: Seq::empty(), merges: Seq::empty(), unk_id: 0 }),
    {
        let r = BpeTokenizer {
            id_to_token: Vec::new(),
            token_to_id: StringHashMap::new(),
            merges: Vec::new(),
            merge_rank: PairTable::new(),
            unk_id: 0,
        };
        assert(r@.tokens =~= Seq::empty());
        assert(r@.merges =~= Seq::empty());
        r
    }

    /// The id of `token`, or `fallback` where the vocabulary lacks it.
    fn id_or(&self, token: &str, fallback: usize) -> (r: usize)
        requires
            self.wf(),
        ensures
            r == self@.id_or(token@, fallback),
    {
        match self.token_to_id.get(token) {
            Some(id) => *id,
            None => fallback,
        }
    }

    pub fn vocab_size(&self) -> (r: usize)
        ensures
            r == self@.tokens.len(),
    {
        self.id_to_token.len()
    }

    pub fn pad_id(&self) -> (r: usize)
        requires
            self.wf(),
        ensures
            r == self@.pad_id(),
    {
        self.id_or(Self::PAD, 0)
    }

    pub fn bos_id(&self) -> (r: usize)
        requires
            self.wf(),
        ensures
            r == self@.bos_id(),
    {
        self.id_or(Self::BOS, 2)
    }

    pub fn eos_id(&self) -> (r: usize)
        requires
            self.wf(),
        ensures
            r == self@.eos_id(),
    {
        self.id_or(Self::EOS, 3)
    }

    /// Applies the learned merges to one word.
    pub fn encode_word(&self, word: &str) -> (r: Vec<String>)
        requires
            self.wf(),
        ensures
            text::texts(r@) == self@.encode_word(word@),
    {
        apply_merges_to(
            split_word_bytes(word),
            &self.merge_rank,
            Ghost(merges::pairs_of(self.merges@)),
        )
    }

    /// Appends the ids of one word.
    fn push_word(&self, ids: &mut Vec<usize>, word: &str)
        requires
            self.wf(),
        ensures
            final(ids)@ == old(ids)@ + self@.ids_of(self@.encode_word(word@)),
    {
        let symbols: Vec<String> = self.encode_word(word);
        let ghost new = self@.ids_of(text::texts(symbols@));
        let mut j: usize = 0;
        assert(ids@ =~= old(ids)@ + new.take(0));
        while j < symbols.len()
            invariant
                j <= symbols@.len(),
                self.wf(),
                new == self@.ids_of(text::texts(symbols@)),
                ids@ == old(ids)@ + new.take(j as int),
            decreases symbols@.len() - j,
        {
            ids.push(self.id_or(symbols[j].as_str(), self.unk_id));
            j += 1;
            assert(ids@ =~= old(ids)@ + new.take(j as int));
        }
        assert(new.take(j as int) =~= new);
    }

    /// Encodes a text between `<BOS>` and `<EOS>`.
    pub fn encode(&self, text: &str) -> (r: Vec<usize>)
        requires
            self.wf(),
        ensures
            r@ == self@.encode(text@),
    {
        let bos: usize = self.bos_id();
        let eos: usize = self.eos_id();
        let mut ids: Vec<usize> = Vec::new();
        ids.push(bos);
        let words: Vec<String> = split_white_space(text);
        let ghost all = text::texts(words@);
        let mut i: usize = 0;
        assert(all.take(0) =~= Seq::empty());
        assert(ids@ =~= seq![bos] + self@.encode_words(all.take(0)));
        while i < words.len()
            invariant
                i <= words@.len(),
                all == text::texts(words@),
                self.wf(),
                ids@ == seq![bos] + self@.encode_words(all.take(i as int)),
            decreases words@.len() - i,
        {
            let word: String = trimmed(words[i].as_str(), CharClass::AsciiPunctuation);
            if !word.as_str().is_empty() {
                self.push_word(&mut ids, word.as_str());
            }
            i += 1;
            proof {
                assert(all.take(i as int).drop_last() =~= all.take(i - 1));
                assert(ids@ =~= seq![bos] + self@.encode_words(all.take(i as int)));
            }
        }
        assert(all.take(i as int) =~= all);
        ids.push(eos);
        assert(ids@ =~= self@.encode(text@));
        ids
    }

    /// Encodes a text for training.
    pub fn encode_simple(&self, text: &str) -> (r: Vec<usize>)
        requires
            self.wf(),
        ensures
            r@ == self@.encode(text@),
    {
        self.encode(text)
    }

    /// Encodes a prompt.
    pub fn encode_prompt(&self, text: &str) -> (r: Vec<usize>)
        requires
            self.wf(),
        ensures
            r@ == self@.encode_prompt(text@),
    {
        let mut ids: Vec<usize> = self.encode(text);
        ids.pop();
        assert(ids@ =~= self@.encode_prompt(text@));
        ids
    }
}

/// The value of a decimal digit.
fn value_of_digit(c: char) -> (r: Option<u8>)
    ensures
        match r {
            Some(v) => v < 10 && digit_value(c) == Some(v as int),
            None => digit_value(c) is None,
        },
{
    match c {
        '0' => Some(0),
        '1' => Some(1),
        '2' => Some(2),
        '3' => Some(3),
        '4' => Some(4),
        '5' => Some(5),
        '6' => Some(6),
        '7' => Some(7),
        '8' => Some(8),
        '9' => Some(9),
        _ => None,
    }
}

/// The number that three characters spell, if it is that of a byte.
fn spell(a: char, b: char, c: char) -> (r: Option<u8>)
    ensures
        r == spelled(a, b, c),
{
    match (value_of_digit(b), value_of_digit(c)) {
        (Some(y), Some(z)) => match value_of_digit(a) {
            Some(x) => {
                let v: u16 = 100 * (x as u16) + 10 * (y as u16) + z as u16;
                if v <= 255 {
                    Some(v as u8)
                } else {
                    None
                }
            },
            None => if a == '+' {
                Some(10 * y + z)
            } else {
                None
            },
        },
        _ => None,
    }
}

/// Whether the token is one of the reserved markers.
fn token_is_reserved(t: &String) -> (r: bool)
    ensures
        r == is_reserved(t@),
{
    let mut reserved: Vec<String> = Vec::new();
    reserved.push("<PAD>".to_owned());
    reserved.push("<UNK>".to_owned());
    reserved.push("<BOS>".to_owned());
    reserved.push("<EOS>".to_owned());
    proof {
        let list = text::texts(reserved@);
        assert(list =~= seq!["<PAD>"@, "<UNK>"@, "<BOS>"@, "<EOS>"@]);
        assert(list[0] == "<PAD>"@ && list[1] == "<UNK>"@);
        assert(list[2] == "<BOS>"@ && list[3] == "<EOS>"@);
    }
    contains_text(&reserved, t)
}

/// The number of bytes of a character.
spec fn width(c: char) -> nat {
    vstd::utf8::encode_scalar(c as u32).len()
}

/// The number of bytes of a character.
fn width_of(c: char) -> (r: usize)
    ensures
        r == width(c),
        1 <= r <= 4,
{
    let u: u32 = text::code_of(c);
    if u <= 0x7f {
        1
    } else if u <= 0x7ff {
        2
    } else if u <= 0xffff {
        3
    } else {
        4
    }
}

/// One more character adds its bytes.
proof fn lemma_width_of_next(s: Seq<char>, k: int)
    requires
        0 <= k < s.len(),
    ensures
        vstd::utf8::encode_utf8(s.take(k + 1)).len() == vstd::utf8::encode_utf8(s.take(k)).len()
            + width(s[k]),
    decreases k,
{
    let (a, b) = (s.take(k), s.take(k + 1));
    if k == 0 {
        assert(a =~= Seq::empty());
        assert(b.drop_first() =~= Seq::empty());
        assert(vstd::utf8::encode_utf8(b.drop_first()).len() == 0);
    } else {
        let rest = s.drop_first();
        lemma_width_of_next(rest, k - 1);
        assert(a.drop_first() =~= rest.take(k - 1));
        assert(b.drop_first() =~= rest.take(k));
    }
}

/// More characters have more bytes.
proof fn lemma_widths_grow(s: Seq<char>, j: int, k: int)
    requires
        0 <= j <= k <= s.len(),
    ensures
        vstd::utf8::encode_utf8(s.take(k)).len() >= vstd::utf8::encode_utf8(s.take(j)).len() + (k
            - j),
    decreases k - j,
{
    if j < k {
        lemma_widths_grow(s, j, k - 1);
        lemma_width_of_next(s, k - 1);
    }
}

/// Four bytes of the text end with a character.
spec fn fourth_byte_ends(t: Seq<char>) -> bool {
    exists|k: int| 0 <= k <= t.len() && #[trigger] vstd::utf8::encode_utf8(t.take(k)).len() == 4
}

/// Whether the text has fewer than four bytes, or four of them end with a
/// character.
fn four_bytes_end(v: &Vec<char>, start: usize) -> (r: bool)
    requires
        start <= v@.len(),
    ensures
        r == (vstd::utf8::encode_utf8(v@.skip(start as int)).len() < 4 || fourth_byte_ends(
            v@.skip(start as int),
        )),
{
    let n: usize = v.len();
    let ghost t = v@.skip(start as int);
    let mut k: usize = 0;
    let mut bytes: usize = 0;
    assert(t.take(0) =~= Seq::empty());
    while k < n - start && bytes < 4
        invariant
            start <= n == v@.len(),
            t == v@.skip(start as int),
            k <= n - start,
            bytes == vstd::utf8::encode_utf8(t.take(k as int)).len(),
            bytes <= 7,
            forall|j: int|
                0 <= j < k ==> #[trigger] vstd::utf8::encode_utf8(t.take(j)).len() < 4,
        decreases n - start - k,
    {
        proof {
            lemma_width_of_next(t, k as int);
        }
        bytes += width_of(v[start + k]);
        k += 1;
    }
    proof {
        assert(t.take(t.len() as int) =~= t);
        if bytes >= 4 {
            lemma_widths_grow(t, k as int, t.len() as int);
        }
        if bytes > 4 && fourth_byte_ends(t) {
            let j = choose|j: int|
                0 <= j <= t.len() && #[trigger] vstd::utf8::encode_utf8(t.take(j)).len() == 4;
            if j > k {
                lemma_widths_grow(t, k as int, j);
            }
        }
    }
    bytes <= 4
}

/// Whether the bytes of a token can be cut.
fn can_slice(tok: &str) -> (r: bool)
    ensures
        r == sliceable(tok@),
{
    let v: Vec<char> = chars_of(tok);
    let n: usize = v.len();
    let mut i: usize = 0;
    assert(v@.skip(0) =~= v@);
    while i < n && v[i] == 'b'
        invariant
            i <= n == v@.len(),
            v@ == tok@,
            sliceable(v@.skip(i as int)) == sliceable(v@),
        decreases n - i,
    {
        let ghost t = v@.skip(i as int);
        proof {
            assert(t.take(0) =~= Seq::empty());
            assert(t.take(t.len() as int) =~= t);
            lemma_widths_grow(t, 0, t.len() as int);
        }
        if n - i >= 4 {
            if spell(v[i + 1], v[i + 2], v[i + 3]).is_some() {
                assert(t.skip(4) =~= v@.skip(i + 4));
                i += 4;
            } else {
                return four_bytes_end(&v, i);
            }
        } else {
            return four_bytes_end(&v, i);
        }
    }
    true
}

impl BpeTokenizer {
    /// The bytes that a token spells.
    pub fn decode_token_to_bytes(tok: &str) -> (r: Vec<u8>)
        requires
            sliceable(tok@),
        ensures
            r@ == token_bytes(tok@),
    {
        let v: Vec<char> = chars_of(tok);
        let n: usize = v.len();
        let mut r: Vec<u8> = Vec::new();
        let mut i: usize = 0;
        assert(v@.skip(0) =~= v@);
        assert(r@ + token_bytes(v@.skip(0)) =~= token_bytes(v@));
        while n - i >= 4 && v[i] == 'b'
            invariant
                i <= n == v@.len(),
                r@ + token_bytes(v@.skip(i as int)) == token_bytes(v@),
            ensures
                r@ == token_bytes(v@),
            decreases n - i,
        {
            let ghost rest = v@.skip(i as int);
            let ghost before = r@;
            match spell(v[i + 1], v[i + 2], v[i + 3]) {
                Some(b) => {
                    r.push(b);
                    proof {
                        assert(rest.skip(4) =~= v@.skip(i + 4));
                        assert(r@ + token_bytes(v@.skip(i + 4)) =~= before + token_bytes(rest));
                    }
                    i += 4;
                },
                None => {
                    assert(token_bytes(rest) =~= Seq::empty());
                    assert(r@ =~= token_bytes(v@));
                    break ;
                },
            }
        }
        r
    }

    /// The token without its end markers, and whether there was one.
    fn split_end(tok: &String) -> (r: (String, bool))
        ensures
            r.0@ == body(tok@),
            r.1 == ends_word(tok@),
    {
        let v: Vec<char> = chars_of(tok.as_str());
        let mut n: usize = v.len();
        proof {
            reveal_strlit("</w>");
        }
        assert(v@.take(n as int) =~= v@);
        while n >= 4 && v[n - 4] == '<' && v[n - 3] == '/' && v[n - 2] == 'w' && v[n - 1] == '>'
            invariant
                n <= v@.len(),
                word_end() == seq!['<', '/', 'w', '>'],
                body(v@.take(n as int)) == body(v@),
                n < v@.len() ==> ends_word(v@),
            decreases n,
        {
            let ghost t = v@.take(n as int);
            proof {
                assert(t.skip(n - 4) =~= word_end());
                assert(n == v@.len() ==> t =~= v@);
                assert(t.take(n - 4) =~= v@.take(n - 4));
            }
            n -= 4;
        }
        proof {
            let t = v@.take(n as int);
            if ends_word(t) {
                assert(t.skip(n - 4)[0] == v@[n - 4]);
                assert(t.skip(n - 4)[1] == v@[n - 3]);
                assert(t.skip(n - 4)[2] == v@[n - 2]);
                assert(t.skip(n - 4)[3] == v@[n - 1]);
            }
            assert(n == v@.len() ==> t =~= v@);
            assert(v@.subrange(0, n as int) =~= t);
        }
        (string_of(&v, 0, n), n < v.len())
    }

    /// Whether the tokens of the ids can be cut into bytes.
    pub fn can_decode(&self, ids: &[usize]) -> (r: bool)
        ensures
            r == self@.decodable(ids@),
    {
        let n: usize = ids.len();
        let mut i: usize = 0;
        while i < n
            invariant
                i <= n == ids@.len(),
                self@.decodable(ids@.take(i as int)),
            decreases n - i,
        {
            let id: usize = ids[i];
            if id < self.id_to_token.len() {
                let token: &String = &self.id_to_token[id];
                assert(self@.tokens[id as int] == token@);
                if !token_is_reserved(token) {
                    let (tok, _): (String, bool) = Self::split_end(token);
                    if !can_slice(tok.as_str()) {
                        assert(ids@[i as int] == id);
                        return false;
                    }
                }
            }
            i += 1;
            assert(ids@.take(i as int) =~= ids@.take(i - 1).push(id));
        }
        assert(ids@.take(n as int) =~= ids@);
        true
    }

    /// Decodes ids to words with one space between each two.
    pub fn decord(&self, ids: &[usize]) -> (r: String)
        requires
            self@.decodable(ids@),
        ensures
            r@ == self@.decode(ids@),
    {
        let mut words: Vec<String> = Vec::new();
        let mut current: Vec<u8> = Vec::new();
        let mut i: usize = 0;
        assert(ids@.take(0) =~= Seq::empty());
        assert(text::texts(words@) =~= Seq::empty());
        while i < ids.len()
            invariant
                i <= ids@.len(),
                self@.decodable(ids@),
                text::texts(words@) == self@.decode_all(ids@.take(i as int)).words,
                current@ == self@.decode_all(ids@.take(i as int)).current,
            decreases ids@.len() - i,
        {
            let ghost words0 = words@;
            let id: usize = ids[i];
            if id < self.id_to_token.len() && !token_is_reserved(
                &self.id_to_token[id],
            ) {
                let (tok, is_end): (String, bool) = Self::split_end(&self.id_to_token[id]);
                assert(self@.tokens[id as int] == self.id_to_token@[id as int]@);
                let mut bytes: Vec<u8> = Self::decode_token_to_bytes(tok.as_str());
                current.append(&mut bytes);
                if is_end {
                    words.push(lossy_string(&current));
                    current = Vec::new();
                    assert(text::texts(words@) =~= text::texts(words0).push(
                        words@.last()@,
                    ));
                }
            }
            i += 1;
            assert(ids@.take(i as int).drop_last() =~= ids@.take(i - 1));
        }
        assert(ids@.take(i as int) =~= ids@);
        if current.len() > 0 {
            let ghost words0 = words@;
            words.push(lossy_string(&current));
            assert(text::texts(words@) =~= text::texts(words0).push(utf8_lossy(current@)));
        }
        join_with(&words, " ")
    }
}

impl BpeModel {
    /// What a checkpoint of the tokenizer holds.
    pub open spec fn weights(self) -> Weights {
        Weights::empty().with(Record::Strings("id_to_token"@, self.tokens)).with(
            Record::Scalar("unk_id"@, self.unk_id as u64),
        ).with(Record::Strings("merges"@, stored::flattened(self.merges)))
    }

    /// The tokenizer that a checkpoint holds.
    pub open spec fn of_weights(w: Weights) -> Self {
        BpeModel {
            tokens: w.strings["id_to_token"@],
            merges: stored::unflattened(w.strings["merges"@]),
            unk_id: w.scalars["unk_id"@] as usize,
        }
    }
}

impl Checkpointable for BpeTokenizer {
    open spec fn valid(&self) -> bool {
        self.wf()
    }

    open spec fn weights(&self) -> Weights {
        self@.weights()
    }

    fn to_weight_map(&self) -> (r: WeightMap) {
        let mut map: WeightMap = WeightMap::new();
        let tokens: Vec<String> = copy_strings(&self.id_to_token);
        let flat: Vec<String> = flatten_pairs(&self.merges);
        proof {
            assert(tokens.deep_view() =~= self@.tokens);
            assert(flat.deep_view() =~= stored::flattened(self@.merges));
        }
        map.insert_strings("id_to_token", tokens);
        map.insert_scalar("unk_id", self.unk_id as u64);
        map.insert_strings("merges", flat);
        map
    }

    fn from_weight_map(&mut self, map: &WeightMap) -> (r: Result<(), DataError>)
        ensures
            match r {
                Ok(_) => stored::loadable(map@) && final(self)@ == BpeModel::of_weights(map@),
                Err(e) => stored::load_error(map@, e) && *final(self) == *old(self),
            },
    {
        let tokens: &Vec<String> = match map.get_strings("id_to_token") {
            Ok(v) => v,
            Err(e) => {
                return Err(e);
            },
        };
        let unk_id: u64 = match map.get_scalar("unk_id") {
            Ok(v) => v,
            Err(e) => {
                return Err(e);
            },
        };
        let flat: &Vec<String> = match map.get_strings("merges") {
            Ok(v) => v,
            Err(e) => {
                return Err(e);
            },
        };
        assert(flat.deep_view() =~= text::texts(flat@));
        if flat.len() % 2 != 0 {
            return Err(DataError::OddMerges);
        }
        assert(tokens.deep_view() =~= text::texts(tokens@));
        self.id_to_token = copy_strings(tokens);
        self.token_to_id = index_tokens(&self.id_to_token);
        self.merges = pairs_from_flat(flat);
        self.merge_rank = rank_pairs(&self.merges);
        self.unk_id = unk_id as usize;
        Ok(())
    }
}

impl Tokenizer for BpeTokenizer {
    open spec fn ready(&self) -> bool {
        self.wf()
    }

    open spec fn size(&self) -> nat {
        self@.tokens.len()
    }

    open spec fn pad(&self) -> usize {
        self@.pad_id()
    }

    open spec fn eos(&self) -> usize {
        self@.eos_id()
    }

    open spec fn long_ids(&self, s: Seq<char>) -> Seq<usize> {
        self@.encode(s)
    }

    open spec fn prompt_ids(&self, s: Seq<char>) -> Seq<usize> {
        self@.encode_prompt(s)
    }

    open spec fn decodable(&self, ids: Seq<usize>) -> bool {
        self@.decodable(ids)
    }

    open spec fn decoded(&self, ids: Seq<usize>) -> Seq<char> {
        self@.decode(ids)
    }

    open spec fn kind_of(&self) -> TokenizerKind {
        TokenizerKind::Bpe
    }

    open spec fn stored(&self) -> Weights {
        self@.weights()
    }

    fn vocab_size(&self) -> (r: usize) {
        BpeTokenizer::vocab_size(self)
    }

    fn pad_id(&self) -> (r: usize) {
        BpeTokenizer::pad_id(self)
    }

    fn eos_id(&self) -> (r: usize) {
        BpeTokenizer::eos_id(self)
    }

    fn encode_long(&self, text: &str) -> (r: Vec<usize>) {
        self.encode_simple(text)
    }

    fn encode_prompt(&self, text: &str) -> (r: Vec<usize>) {
        BpeTokenizer::encode_prompt(self, text)
    }

    fn can_decode(&self, ids: &[usize]) -> (r: bool) {
        BpeTokenizer::can_decode(self, ids)
    }

    fn decode(&self, ids: &[usize]) -> (r: String) {
        self.decord(ids)
    }

    fn kind(&self) -> (r: TokenizerKind) {
        TokenizerKind::Bpe
    }

    fn to_weight_map(&self) -> (r: WeightMap) {
        Checkpointable::to_weight_map(self)
    }
}

/// A tokenizer comes back from its checkpoint.
pub proof fn law_bpe_tokenizer_comes_back(m: BpeModel)
    ensures
        stored::loadable(m.weights()),
        BpeModel::of_weights(m.weights()) == m,
{
    reveal_strlit("id_to_token");
    reveal_strlit("merges");
    stored::lemma_unflattened(m.merges);
    assert("id_to_token"@.len() == 11 && "merges"@.len() == 6);
    assert(BpeModel::of_weights(m.weights()) =~= m);
}

} // verus!
