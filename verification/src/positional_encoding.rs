//! The kinds of positional encoding.

use crate::error::{DataError, Family};
use vstd::prelude::*;

verus! {

/// A kind of positional encoding.
#[derive(Clone, Copy, Debug, PartialEq, Eq, Structural)]
pub enum PositionalEncodingKind {
    /// Sines and cosines added to the embeddings.
    Sinusoidal,
    /// Keys and queries rotated by an angle for their position.
    Rope,
}

impl PositionalEncodingKind {
    /// The code of the kind in a checkpoint.
    pub open spec fn code(self) -> u64 {
        match self {
            PositionalEncodingKind::Sinusoidal => 1,
            PositionalEncodingKind::Rope => 2,
        }
    }

    /// The code of the kind in a checkpoint.
    pub fn as_u64(&self) -> (r: u64)
        ensures
            r == self.code(),
    {
        match self {
            PositionalEncodingKind::Sinusoidal => 1,
            PositionalEncodingKind::Rope => 2,
        }
    }

    /// The kind with the given code.
    pub fn from_u64(v: u64) -> (r: Result<Self, DataError>)
        ensures
            match r {
                Ok(kind) => v == kind.code(),
                Err(e) => e == DataError::UnknownCode(Family::PositionalEncoding, v) && forall|kind: PositionalEncodingKind|
                    v != #[trigger] kind.code(),
            },
    {
        match v {
            1 => Ok(PositionalEncodingKind::Sinusoidal),
            2 => Ok(PositionalEncodingKind::Rope),
            other => Err(DataError::UnknownCode(Family::PositionalEncoding, other)),
        }
    }
}

/// No two kinds have the same code.
pub proof fn law_positional_encoding_codes_differ(a: PositionalEncodingKind, b: PositionalEncodingKind)
    requires
        a.code() == b.code(),
    ensures
        a == b,
{
}

} // verus!
