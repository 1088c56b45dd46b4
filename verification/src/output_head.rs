//! What is stored of the output head.

use crate::checkpoint::{Record, WeightMap, Weights};
use crate::error::{DataError, Fault, Part};
use crate::table::Duplicate;
use vstd::prelude::*;

verus! {

/// What is stored of an output head.
pub struct OutputHeadWeights {
    pub vocab_size: usize,
    pub d_model: usize,
    pub w: Vec<Vec<u32>>,
}

/// What an `OutputHeadWeights` stands for.
#[verifier::ext_equal]
pub struct OutputHeadModel {
    pub vocab_size: usize,
    pub d_model: usize,
    pub w: Seq<Seq<u32>>,
}

impl View for OutputHeadWeights {
    type V = OutputHeadModel;

    open spec fn view(&self) -> OutputHeadModel {
        OutputHeadModel {
            vocab_size: self.vocab_size,
            d_model: self.d_model,
            w: self.w.deep_view(),
        }
    }
}

impl OutputHeadModel {
    /// What a checkpoint of the layer holds.
    pub open spec fn weights(self) -> Weights {
        Weights::empty()
            .with(Record::Scalar("vocab_size"@, self.vocab_size as u64))
            .with(Record::Scalar("d_model"@, self.d_model as u64))
            .with(Record::Matrix("w"@, self.w))
    }

    /// The layer of the given shape that a checkpoint holds, or what is wrong
    /// with the checkpoint.
    pub open spec fn of_weights(vocab_size: usize, d_model: usize, w: Weights) -> Result<Self, Fault> {
        if !w.scalars.contains_key("vocab_size"@) {
            Err(Fault::MissingKey("vocab_size"@))
        } else if !w.scalars.contains_key("d_model"@) {
            Err(Fault::MissingKey("d_model"@))
        } else if w.scalars["vocab_size"@] as usize != vocab_size || w.scalars["d_model"@] as usize != d_model {
            Err(Fault::Mismatch(Part::OutputHead))
        } else if !w.matrices.contains_key("w"@) {
            Err(Fault::MissingKey("w"@))
        } else {
            Ok(
                OutputHeadModel {
                    vocab_size,
                    d_model,
                    w: w.matrices["w"@],
                },
            )
        }
    }
}

impl OutputHeadWeights {
    /// The checkpoint of the layer.
    pub fn to_weight_map(&self) -> (r: WeightMap)
        ensures
            r.wf(),
            r@ == self@.weights(),
    {
        let mut map: WeightMap = WeightMap::new();
        map.insert_scalar("vocab_size", self.vocab_size as u64);
        map.insert_scalar("d_model", self.d_model as u64);
        map.insert_matrix("w", self.w.duplicate());
        map
    }

    /// The layer of the given shape that a checkpoint holds.
    pub fn from_weight_map(vocab_size: usize, d_model: usize, map: &WeightMap) -> (r: Result<Self, DataError>)
        requires
            map.wf(),
        ensures
            match r {
                Ok(layer) => OutputHeadModel::of_weights(vocab_size, d_model, map@) == Ok::<OutputHeadModel, Fault>(layer@),
                Err(e) => OutputHeadModel::of_weights(vocab_size, d_model, map@) == Err::<OutputHeadModel, Fault>(e@),
            },
    {
        let stored_vocab_size: u64 = map.get_scalar("vocab_size")?;
        let stored_d_model: u64 = map.get_scalar("d_model")?;
        if stored_vocab_size as usize != vocab_size || stored_d_model as usize != d_model {
            return Err(DataError::Mismatch(Part::OutputHead));
        }
        let w: Vec<Vec<u32>> = map.get_matrix("w")?.duplicate();
        Ok(OutputHeadWeights { vocab_size, d_model, w })
    }
}

/// An output head comes back from its checkpoint.
pub proof fn law_output_head_comes_back(m: OutputHeadModel)
    ensures
        OutputHeadModel::of_weights(m.vocab_size, m.d_model, m.weights()) == Ok::<OutputHeadModel, Fault>(m),
{
    reveal_strlit("vocab_size");
    reveal_strlit("d_model");
    reveal_strlit("w");
    assert("vocab_size"@.len() == 10 && "d_model"@.len() == 7);
}

} // verus!
