//! What all tokenizers have in common.

use vstd::prelude::*;

use crate::bpe_tokenizer::{self, BpeModel, BpeTokenizer};
use crate::char_bpe_tokenizer::{self, CharBpeModel, CharBpeTokenizer};
use crate::char_tokenizer::{self, CharModel, CharTokenizer};
use crate::checkpoint::{Checkpointable, WeightMap, Weights};
use crate::error::{DataError, Family};
use crate::merges;
use crate::stored;

verus! {

/// The kinds of tokenizers, as checkpoints name them.
#[derive(Clone, Copy, Debug, PartialEq, Eq, Structural)]
pub enum TokenizerKind {
    Bpe,
    Char,
    CharBpe,
}

impl TokenizerKind {
    pub open spec fn code(self) -> u64 {
        match self {
            TokenizerKind::Bpe => 1,
            TokenizerKind::Char => 2,
            TokenizerKind::CharBpe => 3,
        }
    }

    pub fn as_u64(&self) -> (r: u64)
        ensures
            r == self.code(),
    {
        match self {
            TokenizerKind::Bpe => 1,
            TokenizerKind::Char => 2,
            TokenizerKind::CharBpe => 3,
        }
    }

    pub fn from_u64(v: u64) -> (r: Result<Self, DataError>)
        ensures
            match r {
                Ok(k) => k.code() == v,
                Err(e) => e == DataError::UnknownCode(Family::Tokenizer, v) && forall|k: Self|
                    #[trigger] k.code() != v,
            },
    {
        match v {
            1 => Ok(TokenizerKind::Bpe),
            2 => Ok(TokenizerKind::Char),
            3 => Ok(TokenizerKind::CharBpe),
            _ => Err(DataError::UnknownCode(Family::Tokenizer, v)),
        }
    }
}

/// No two kinds have the same code.
pub proof fn law_tokenizer_codes_differ(a: TokenizerKind, b: TokenizerKind)
    requires
        a.code() == b.code(),
    ensures
        a == b,
{
}

/// What training and inference need of a tokenizer.
pub trait Tokenizer {
    /// The tokenizer is in order.
    spec fn ready(&self) -> bool;

    spec fn size(&self) -> nat;

    spec fn pad(&self) -> usize;

    spec fn eos(&self) -> usize;

    spec fn long_ids(&self, s: Seq<char>) -> Seq<usize>;

    spec fn prompt_ids(&self, s: Seq<char>) -> Seq<usize>;

    /// The ids can be decoded.
    spec fn decodable(&self, ids: Seq<usize>) -> bool;

    spec fn decoded(&self, ids: Seq<usize>) -> Seq<char>;

    spec fn kind_of(&self) -> TokenizerKind;

    spec fn stored(&self) -> Weights;

    /// The number of ids.
    fn vocab_size(&self) -> (r: usize)
        requires
            self.ready(),
        ensures
            r == self.size(),
    ;

    fn pad_id(&self) -> (r: usize)
        requires
            self.ready(),
        ensures
            r == self.pad(),
    ;

    /// The id at which generation stops; `usize::MAX` where there is none.
    fn eos_id(&self) -> (r: usize)
        requires
            self.ready(),
        ensures
            r == self.eos(),
    ;

    /// Encodes a whole corpus.
    fn encode_long(&self, text: &str) -> (r: Vec<usize>)
        requires
            self.ready(),
        ensures
            r@ == self.long_ids(text@),
    ;

    /// Encodes a prompt.
    fn encode_prompt(&self, text: &str) -> (r: Vec<usize>)
        requires
            self.ready(),
        ensures
            r@ == self.prompt_ids(text@),
    ;

    /// Whether the ids can be decoded.
    fn can_decode(&self, ids: &[usize]) -> (r: bool)
        requires
            self.ready(),
        ensures
            r == self.decodable(ids@),
    ;

    fn decode(&self, ids: &[usize]) -> (r: String)
        requires
            self.ready(),
            self.decodable(ids@),
        ensures
            r@ == self.decoded(ids@),
    ;

    fn kind(&self) -> (r: TokenizerKind)
        ensures
            r == self.kind_of(),
    ;

    fn to_weight_map(&self) -> (r: WeightMap)
        requires
            self.ready(),
        ensures
            r.wf(),
            r@ == self.stored(),
    ;
}

/// A tokenizer of any kind.
pub enum AnyTokenizer {
    Bpe(BpeTokenizer),
    Char(CharTokenizer),
    CharBpe(CharBpeTokenizer),
}

impl Tokenizer for AnyTokenizer {
    open spec fn ready(&self) -> bool {
        match self {
            AnyTokenizer::Bpe(t) => t.ready(),
            AnyTokenizer::Char(t) => t.ready(),
            AnyTokenizer::CharBpe(t) => t.ready(),
        }
    }

    open spec fn size(&self) -> nat {
        match self {
            AnyTokenizer::Bpe(t) => t.size(),
            AnyTokenizer::Char(t) => t.size(),
            AnyTokenizer::CharBpe(t) => t.size(),
        }
    }

    open spec fn pad(&self) -> usize {
        match self {
            AnyTokenizer::Bpe(t) => t.pad(),
            AnyTokenizer::Char(t) => t.pad(),
            AnyTokenizer::CharBpe(t) => t.pad(),
        }
    }

    open spec fn eos(&self) -> usize {
        match self {
            AnyTokenizer::Bpe(t) => t.eos(),
            AnyTokenizer::Char(t) => t.eos(),
            AnyTokenizer::CharBpe(t) => t.eos(),
        }
    }

    open spec fn long_ids(&self, s: Seq<char>) -> Seq<usize> {
        match self {
            AnyTokenizer::Bpe(t) => t.long_ids(s),
            AnyTokenizer::Char(t) => t.long_ids(s),
            AnyTokenizer::CharBpe(t) => t.long_ids(s),
        }
    }

    open spec fn prompt_ids(&self, s: Seq<char>) -> Seq<usize> {
        match self {
            AnyTokenizer::Bpe(t) => t.prompt_ids(s),
            AnyTokenizer::Char(t) => t.prompt_ids(s),
            AnyTokenizer::CharBpe(t) => t.prompt_ids(s),
        }
    }

    open spec fn decodable(&self, ids: Seq<usize>) -> bool {
        match self {
            AnyTokenizer::Bpe(t) => t.decodable(ids),
            AnyTokenizer::Char(t) => t.decodable(ids),
            AnyTokenizer::CharBpe(t) => t.decodable(ids),
        }
    }

    open spec fn decoded(&self, ids: Seq<usize>) -> Seq<char> {
        match self {
            AnyTokenizer::Bpe(t) => t.decoded(ids),
            AnyTokenizer::Char(t) => t.decoded(ids),
            AnyTokenizer::CharBpe(t) => t.decoded(ids),
        }
    }

    open spec fn kind_of(&self) -> TokenizerKind {
        match self {
            AnyTokenizer::Bpe(_) => TokenizerKind::Bpe,
            AnyTokenizer::Char(_) => TokenizerKind::Char,
            AnyTokenizer::CharBpe(_) => TokenizerKind::CharBpe,
        }
    }

    open spec fn stored(&self) -> Weights {
        match self {
            AnyTokenizer::Bpe(t) => t.stored(),
            AnyTokenizer::Char(t) => t.stored(),
            AnyTokenizer::CharBpe(t) => t.stored(),
        }
    }

    fn vocab_size(&self) -> (r: usize) {
        match self {
            AnyTokenizer::Bpe(t) => Tokenizer::vocab_size(t),
            AnyTokenizer::Char(t) => Tokenizer::vocab_size(t),
            AnyTokenizer::CharBpe(t) => Tokenizer::vocab_size(t),
        }
    }

    fn pad_id(&self) -> (r: usize) {
        match self {
            AnyTokenizer::Bpe(t) => Tokenizer::pad_id(t),
            AnyTokenizer::Char(t) => Tokenizer::pad_id(t),
            AnyTokenizer::CharBpe(t) => Tokenizer::pad_id(t),
        }
    }

    fn eos_id(&self) -> (r: usize) {
        match self {
            AnyTokenizer::Bpe(t) => Tokenizer::eos_id(t),
            AnyTokenizer::Char(t) => Tokenizer::eos_id(t),
            AnyTokenizer::CharBpe(t) => Tokenizer::eos_id(t),
        }
    }

    fn encode_long(&self, text: &str) -> (r: Vec<usize>) {
        match self {
            AnyTokenizer::Bpe(t) => Tokenizer::encode_long(t, text),
            AnyTokenizer::Char(t) => Tokenizer::encode_long(t, text),
            AnyTokenizer::CharBpe(t) => Tokenizer::encode_long(t, text),
        }
    }

    fn encode_prompt(&self, text: &str) -> (r: Vec<usize>) {
        match self {
            AnyTokenizer::Bpe(t) => Tokenizer::encode_prompt(t, text),
            AnyTokenizer::Char(t) => Tokenizer::encode_prompt(t, text),
            AnyTokenizer::CharBpe(t) => Tokenizer::encode_prompt(t, text),
        }
    }

    fn can_decode(&self, ids: &[usize]) -> (r: bool) {
        match self {
            AnyTokenizer::Bpe(t) => Tokenizer::can_decode(t, ids),
            AnyTokenizer::Char(t) => Tokenizer::can_decode(t, ids),
            AnyTokenizer::CharBpe(t) => Tokenizer::can_decode(t, ids),
        }
    }

    fn decode(&self, ids: &[usize]) -> (r: String) {
        match self {
            AnyTokenizer::Bpe(t) => Tokenizer::decode(t, ids),
            AnyTokenizer::Char(t) => Tokenizer::decode(t, ids),
            AnyTokenizer::CharBpe(t) => Tokenizer::decode(t, ids),
        }
    }

    fn kind(&self) -> (r: TokenizerKind) {
        match self {
            AnyTokenizer::Bpe(_) => TokenizerKind::Bpe,
            AnyTokenizer::Char(_) => TokenizerKind::Char,
            AnyTokenizer::CharBpe(_) => TokenizerKind::CharBpe,
        }
    }

    fn to_weight_map(&self) -> (r: WeightMap) {
        match self {
            AnyTokenizer::Bpe(t) => Tokenizer::to_weight_map(t),
            AnyTokenizer::Char(t) => Tokenizer::to_weight_map(t),
            AnyTokenizer::CharBpe(t) => Tokenizer::to_weight_map(t),
        }
    }
}

/// The code of the tokenizer in a checkpoint. Without one it is a byte-level
/// tokenizer.
pub open spec fn stored_code(w: Weights) -> u64 {
    if w.scalars.contains_key("kind"@) {
        w.scalars["kind"@]
    } else {
        TokenizerKind::Bpe.code()
    }
}

/// The checkpoint holds a tokenizer.
pub open spec fn loadable(w: Weights) -> bool {
    if stored_code(w) == TokenizerKind::Char.code() {
        CharModel::loadable(w)
    } else {
        (stored_code(w) == TokenizerKind::Bpe.code() || stored_code(w)
            == TokenizerKind::CharBpe.code()) && stored::loadable(w)
    }
}

/// `t` is the tokenizer that the checkpoint holds.
pub open spec fn restored(w: Weights, t: AnyTokenizer) -> bool {
    t.ready() && t.kind_of().code() == stored_code(w) && match t {
        AnyTokenizer::Bpe(t) => stored::loadable(w) && t@ == BpeModel::of_weights(w),
        AnyTokenizer::Char(t) => CharModel::loadable(w) && t@ == CharModel::of_weights(w),
        AnyTokenizer::CharBpe(t) => stored::loadable(w) && t@ == CharBpeModel::of_weights(w),
    }
}

/// All tokenizers that one checkpoint holds are of one size and pad alike.
pub proof fn lemma_restored_alike(w: Weights, a: AnyTokenizer, b: AnyTokenizer)
    requires
        restored(w, a),
        restored(w, b),
    ensures
        a.size() == b.size(),
        a.pad() == b.pad(),
{
}

/// The error where the checkpoint holds no tokenizer.
pub open spec fn load_error(w: Weights, e: DataError) -> bool {
    if stored_code(w) == TokenizerKind::Char.code() {
        CharModel::load_error(w, e)
    } else if stored_code(w) == TokenizerKind::Bpe.code() || stored_code(w)
        == TokenizerKind::CharBpe.code() {
        stored::load_error(w, e)
    } else {
        e == DataError::UnknownCode(Family::Tokenizer, stored_code(w))
    }
}

/// Restores the tokenizer that a checkpoint holds.
pub fn load_tokenizer(map: &WeightMap) -> (r: Result<AnyTokenizer, DataError>)
    requires
        map.wf(),
    ensures
        match r {
            Ok(t) => loadable(map@) && restored(map@, t),
            Err(e) => !loadable(map@) && load_error(map@, e),
        },
{
    let kind: TokenizerKind = match map.get_scalar("kind") {
        Ok(v) => match TokenizerKind::from_u64(v) {
            Ok(k) => k,
            Err(e) => {
                assert(TokenizerKind::Bpe.code() != v && TokenizerKind::Char.code() != v
                    && TokenizerKind::CharBpe.code() != v);
                return Err(e);
            },
        },
        Err(_) => TokenizerKind::Bpe,
    };
    match kind {
        TokenizerKind::Bpe => {
            let mut t: BpeTokenizer = BpeTokenizer::empty();
            match t.from_weight_map(map) {
                Ok(_) => Ok(AnyTokenizer::Bpe(t)),
                Err(e) => Err(e),
            }
        },
        TokenizerKind::Char => {
            let mut t: CharTokenizer = CharTokenizer::empty();
            match t.from_weight_map(map) {
                Ok(_) => Ok(AnyTokenizer::Char(t)),
                Err(e) => Err(e),
            }
        },
        TokenizerKind::CharBpe => {
            let mut t: CharBpeTokenizer = CharBpeTokenizer::empty();
            match t.from_weight_map(map) {
                Ok(_) => Ok(AnyTokenizer::CharBpe(t)),
                Err(e) => Err(e),
            }
        },
    }
}

/// `t` was trained on `merge_text`, with the characters of `coverage_text`.
pub open spec fn trained(
    t: AnyTokenizer,
    merge_text: &str,
    coverage_text: Seq<char>,
    size: nat,
) -> bool {
    match t {
        AnyTokenizer::Bpe(t) => t@.unk_id == 1 && merges::learned(
            bpe_tokenizer::weighted_words(bpe_tokenizer::corpus_words(seq![merge_text])),
            bpe_tokenizer::initial_tokens(),
            t@.merges,
            t@.tokens,
            size,
        ),
        AnyTokenizer::Char(t) => t@.chars.len() > 0 && t@.chars[0] == '\0'
            && char_tokenizer::lists_chars(t@.letters(), coverage_text),
        AnyTokenizer::CharBpe(t) => t@.unk_id == 1 && t@.special_tokens
            == char_bpe_tokenizer::reserved() && merges::learned(
            char_bpe_tokenizer::char_words(merge_text@),
            char_bpe_tokenizer::initial_tokens(coverage_text, merge_text@),
            t@.merges,
            t@.tokens,
            size,
        ),
    }
}

/// Trains a tokenizer on a text. A character tokenizer takes its size from the
/// text.
pub fn train_tokenizer(kind: TokenizerKind, text: &str, vocab_size: usize) -> (r: AnyTokenizer)
    ensures
        r.ready(),
        r.kind_of() == kind,
        trained(r, text, text@, vocab_size as nat),
{
    train_tokenizer_with_coverage(kind, text, text, vocab_size)
}

/// Trains a tokenizer that learns merges from `merge_text` and knows the
/// characters of `coverage_text`. A byte-level tokenizer knows all bytes as it
/// is; a character tokenizer has nothing to merge.
pub fn train_tokenizer_with_coverage(
    kind: TokenizerKind,
    merge_text: &str,
    coverage_text: &str,
    vocab_size: usize,
) -> (r: AnyTokenizer)
    ensures
        r.ready(),
        r.kind_of() == kind,
        trained(r, merge_text, coverage_text@, vocab_size as nat),
{
    match kind {
        TokenizerKind::Bpe => {
            let mut corpus: Vec<&str> = Vec::new();
            corpus.push(merge_text);
            assert(corpus@ =~= seq![merge_text]);
            AnyTokenizer::Bpe(BpeTokenizer::train(corpus.as_slice(), vocab_size))
        },
        TokenizerKind::Char => AnyTokenizer::Char(CharTokenizer::train(coverage_text)),
        TokenizerKind::CharBpe => AnyTokenizer::CharBpe(
            CharBpeTokenizer::train_with_coverage(merge_text, coverage_text, vocab_size),
        ),
    }
}

/// A saved tokenizer is loaded as what it was: its kind is found again.
pub proof fn law_saved_kind_is_found(t: AnyTokenizer)
    ensures
        stored_code(t.stored()) == t.kind_of().code(),
{
    reveal_strlit("kind");
    reveal_strlit("unk_id");
    assert("kind"@.len() == 4 && "unk_id"@.len() == 6);
}

} // verus!
