//! What can go wrong with stored data.

use vstd::prelude::*;

verus! {

/// A family of codes that a checkpoint stores.
#[derive(Clone, Copy, Debug, PartialEq, Eq, Structural)]
pub enum Family {
    Tokenizer,
    Normalization,
    FeedForward,
    PositionalEncoding,
}

/// A part of a model that is stored on its own.
#[derive(Clone, Copy, Debug, PartialEq, Eq, Structural)]
pub enum Part {
    Attention,
    Normalization,
    FeedForward,
    Embedding,
    OutputHead,
    Transformer,
}

/// Why data could not be used.
#[derive(Debug)]
pub enum DataError {
    /// The bytes do not start with the magic number.
    BadMagic,
    /// The bytes are of another version.
    UnsupportedVersion(u32),
    /// The bytes end within a field.
    Truncated,
    /// A text is not valid UTF-8.
    InvalidUtf8,
    /// A record has a kind that does not exist.
    UnknownRecord(u8),
    /// No value is stored under the key.
    MissingKey(String),
    /// The code stands for no member of the family.
    UnknownCode(Family, u64),
    /// The flat list of merges does not split into pairs.
    OddMerges,
    /// The character table is empty.
    NoCharacters,
    /// The text stored for this id is empty.
    EmptyCharacter(usize),
    /// The text stored for this id has more than one character.
    LongCharacter(usize),
    /// What is stored for the part is of another shape.
    Mismatch(Part),
}

/// What a `DataError` stands for.
#[verifier::ext_equal]
pub enum Fault {
    BadMagic,
    UnsupportedVersion(u32),
    Truncated,
    InvalidUtf8,
    UnknownRecord(u8),
    MissingKey(Seq<char>),
    UnknownCode(Family, u64),
    OddMerges,
    NoCharacters,
    EmptyCharacter(usize),
    LongCharacter(usize),
    Mismatch(Part),
}

impl View for DataError {
    type V = Fault;

    open spec fn view(&self) -> Fault {
        match self {
            DataError::BadMagic => Fault::BadMagic,
            DataError::UnsupportedVersion(v) => Fault::UnsupportedVersion(*v),
            DataError::Truncated => Fault::Truncated,
            DataError::InvalidUtf8 => Fault::InvalidUtf8,
            DataError::UnknownRecord(k) => Fault::UnknownRecord(*k),
            DataError::MissingKey(k) => Fault::MissingKey(k@),
            DataError::UnknownCode(f, c) => Fault::UnknownCode(*f, *c),
            DataError::OddMerges => Fault::OddMerges,
            DataError::NoCharacters => Fault::NoCharacters,
            DataError::EmptyCharacter(i) => Fault::EmptyCharacter(*i),
            DataError::LongCharacter(i) => Fault::LongCharacter(*i),
            DataError::Mismatch(p) => Fault::Mismatch(*p),
        }
    }
}

impl DataError {
    /// The error that says that nothing is stored under `key`.
    pub open spec fn is_missing(self, key: Seq<char>) -> bool {
        self matches DataError::MissingKey(k) && k@ == key
    }
}

} // verus!
