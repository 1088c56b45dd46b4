//! The kinds of normalization and what is stored of them.

use crate::checkpoint::{Record, WeightMap, Weights};
use crate::error::{DataError, Family, Fault, Part};
use crate::table::Duplicate;
use vstd::prelude::*;

verus! {

/// A kind of normalization.
#[derive(Clone, Copy, Debug, PartialEq, Eq, Structural)]
pub enum NormalizationKind {
    /// A layer normalization.
    Layer,
    /// A root mean square normalization.
    Rms,
}

impl NormalizationKind {
    /// The code of the kind in a checkpoint.
    pub open spec fn code(self) -> u64 {
        match self {
            NormalizationKind::Layer => 1,
            NormalizationKind::Rms => 2,
        }
    }

    /// The code of the kind in a checkpoint.
    pub fn as_u64(&self) -> (r: u64)
        ensures
            r == self.code(),
    {
        match self {
            NormalizationKind::Layer => 1,
            NormalizationKind::Rms => 2,
        }
    }

    /// The kind with the given code.
    pub fn from_u64(v: u64) -> (r: Result<Self, DataError>)
        ensures
            match r {
                Ok(kind) => v == kind.code(),
                Err(e) => e == DataError::UnknownCode(Family::Normalization, v) && forall|kind: NormalizationKind|
                    v != #[trigger] kind.code(),
            },
    {
        match v {
            1 => Ok(NormalizationKind::Layer),
            2 => Ok(NormalizationKind::Rms),
            other => Err(DataError::UnknownCode(Family::Normalization, other)),
        }
    }
}

/// No two kinds have the same code.
pub proof fn law_normalization_codes_differ(a: NormalizationKind, b: NormalizationKind)
    requires
        a.code() == b.code(),
    ensures
        a == b,
{
}

/// What is stored of a normalization.
pub enum NormWeights {
    Layer { gamma: Vec<u32>, beta: Vec<u32> },
    Rms { gain: Vec<u32> },
}

/// What a `NormWeights` stands for.
#[verifier::ext_equal]
pub enum NormModel {
    Layer { gamma: Seq<u32>, beta: Seq<u32> },
    Rms { gain: Seq<u32> },
}

impl View for NormWeights {
    type V = NormModel;

    open spec fn view(&self) -> NormModel {
        match self {
            NormWeights::Layer { gamma, beta } => NormModel::Layer {
                gamma: gamma.deep_view(),
                beta: beta.deep_view(),
            },
            NormWeights::Rms { gain } => NormModel::Rms { gain: gain.deep_view() },
        }
    }
}

impl NormModel {
    /// The kind of the normalization.
    pub open spec fn kind(self) -> NormalizationKind {
        match self {
            NormModel::Layer { .. } => NormalizationKind::Layer,
            NormModel::Rms { .. } => NormalizationKind::Rms,
        }
    }

    /// Every vector has `d_model` entries.
    pub open spec fn fits(self, d_model: usize) -> bool {
        match self {
            NormModel::Layer { gamma, beta } => gamma.len() == d_model && beta.len() == d_model,
            NormModel::Rms { gain } => gain.len() == d_model,
        }
    }

    /// What a checkpoint of the normalization holds.
    pub open spec fn weights(self) -> Weights {
        match self {
            NormModel::Layer { gamma, beta } => Weights::empty().with(
                Record::Vector("gamma"@, gamma),
            ).with(Record::Vector("beta"@, beta)),
            NormModel::Rms { gain } => Weights::empty().with(Record::Vector("gain"@, gain)),
        }
    }

    /// The normalization of the given kind and width that a checkpoint holds, or
    /// what is wrong with the checkpoint.
    pub open spec fn of_weights(kind: NormalizationKind, d_model: usize, w: Weights) -> Result<
        Self,
        Fault,
    > {
        match kind {
            NormalizationKind::Layer => if !w.vectors.contains_key("gamma"@) {
                Err(Fault::MissingKey("gamma"@))
            } else if !w.vectors.contains_key("beta"@) {
                Err(Fault::MissingKey("beta"@))
            } else if w.vectors["gamma"@].len() != d_model || w.vectors["beta"@].len() != d_model {
                Err(Fault::Mismatch(Part::Normalization))
            } else {
                Ok(NormModel::Layer { gamma: w.vectors["gamma"@], beta: w.vectors["beta"@] })
            },
            NormalizationKind::Rms => if !w.vectors.contains_key("gain"@) {
                Err(Fault::MissingKey("gain"@))
            } else if w.vectors["gain"@].len() != d_model {
                Err(Fault::Mismatch(Part::Normalization))
            } else {
                Ok(NormModel::Rms { gain: w.vectors["gain"@] })
            },
        }
    }
}

impl NormWeights {
    /// The checkpoint of the normalization.
    pub fn to_weight_map(&self) -> (r: WeightMap)
        ensures
            r.wf(),
            r@ == self@.weights(),
    {
        let mut map: WeightMap = WeightMap::new();
        match self {
            NormWeights::Layer { gamma, beta } => {
                map.insert_vector("gamma", gamma.duplicate());
                map.insert_vector("beta", beta.duplicate());
            },
            NormWeights::Rms { gain } => {
                map.insert_vector("gain", gain.duplicate());
            },
        }
        map
    }

    /// The normalization of the given kind and width that a checkpoint holds.
    pub fn from_weight_map(kind: NormalizationKind, d_model: usize, map: &WeightMap) -> (r: Result<
        Self,
        DataError,
    >)
        requires
            map.wf(),
        ensures
            match r {
                Ok(norm) => NormModel::of_weights(kind, d_model, map@) == Ok::<NormModel, Fault>(
                    norm@,
                ),
                Err(e) => NormModel::of_weights(kind, d_model, map@) == Err::<NormModel, Fault>(e@),
            },
    {
        match kind {
            NormalizationKind::Layer => {
                let gamma: Vec<u32> = map.get_vector("gamma")?.duplicate();
                let beta: Vec<u32> = map.get_vector("beta")?.duplicate();
                if gamma.len() != d_model || beta.len() != d_model {
                    return Err(DataError::Mismatch(Part::Normalization));
                }
                Ok(NormWeights::Layer { gamma, beta })
            },
            NormalizationKind::Rms => {
                let gain: Vec<u32> = map.get_vector("gain")?.duplicate();
                if gain.len() != d_model {
                    return Err(DataError::Mismatch(Part::Normalization));
                }
                Ok(NormWeights::Rms { gain })
            },
        }
    }
}

/// A normalization comes back from its checkpoint.
pub proof fn law_normalization_comes_back(m: NormModel, d_model: usize)
    requires
        m.fits(d_model),
    ensures
        NormModel::of_weights(m.kind(), d_model, m.weights()) == Ok::<NormModel, Fault>(m),
{
    reveal_strlit("gamma");
    reveal_strlit("beta");
    assert("gamma"@.len() == 5 && "beta"@.len() == 4);
}

} // verus!
