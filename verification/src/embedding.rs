//! What is stored of the token embedding.

use crate::checkpoint::{Record, WeightMap, Weights};
use crate::error::{DataError, Fault, Part};
use crate::matrix::{self, Matrix};
use crate::table::Duplicate;
use vstd::prelude::*;

verus! {

/// What is stored of an embedding.
pub struct EmbeddingWeights {
    pub vocab_size: usize,
    pub d_model: usize,
    pub pad_id: Option<usize>,
    pub weight: Vec<Vec<u32>>,
}

/// What an `EmbeddingWeights` stands for.
#[verifier::ext_equal]
pub struct EmbeddingModel {
    pub vocab_size: usize,
    pub d_model: usize,
    pub pad_id: Option<usize>,
    pub weight: Seq<Seq<u32>>,
}

impl View for EmbeddingWeights {
    type V = EmbeddingModel;

    open spec fn view(&self) -> EmbeddingModel {
        EmbeddingModel {
            vocab_size: self.vocab_size,
            d_model: self.d_model,
            pad_id: self.pad_id,
            weight: self.weight.deep_view(),
        }
    }
}

impl EmbeddingModel {
    /// What a checkpoint of the embedding holds.
    pub open spec fn weights(self) -> Weights {
        Weights::empty().with(Record::Scalar("vocab_size"@, self.vocab_size as u64)).with(
            Record::Scalar("d_model"@, self.d_model as u64),
        ).with(
            Record::Scalar(
                "has_pad_id"@,
                if self.pad_id is Some {
                    1
                } else {
                    0
                },
            ),
        ).with(
            Record::Scalar(
                "pad_id"@,
                match self.pad_id {
                    Some(id) => id as u64,
                    None => 0,
                },
            ),
        ).with(Record::Matrix("weight"@, self.weight))
    }

    /// The padding id that a checkpoint names.
    pub open spec fn stored_pad_id(w: Weights) -> Option<usize> {
        if w.scalars["has_pad_id"@] == 1 {
            Some(w.scalars["pad_id"@] as usize)
        } else {
            None
        }
    }

    /// The embedding of the given shape that a checkpoint holds, or what is wrong
    /// with the checkpoint.
    pub open spec fn of_weights(
        vocab_size: usize,
        d_model: usize,
        pad_id: Option<usize>,
        w: Weights,
    ) -> Result<Self, Fault> {
        if !w.scalars.contains_key("vocab_size"@) {
            Err(Fault::MissingKey("vocab_size"@))
        } else if !w.scalars.contains_key("d_model"@) {
            Err(Fault::MissingKey("d_model"@))
        } else if !w.scalars.contains_key("has_pad_id"@) {
            Err(Fault::MissingKey("has_pad_id"@))
        } else if w.scalars["has_pad_id"@] == 1 && !w.scalars.contains_key("pad_id"@) {
            Err(Fault::MissingKey("pad_id"@))
        } else if w.scalars["vocab_size"@] as usize != vocab_size || w.scalars["d_model"@] as usize
            != d_model || Self::stored_pad_id(w) != pad_id {
            Err(Fault::Mismatch(Part::Embedding))
        } else if !w.matrices.contains_key("weight"@) {
            Err(Fault::MissingKey("weight"@))
        } else {
            Ok(EmbeddingModel { vocab_size, d_model, pad_id, weight: w.matrices["weight"@] })
        }
    }
}

/// The two ids are the same.
fn same_id(a: Option<usize>, b: Option<usize>) -> (r: bool)
    ensures
        r == (a == b),
{
    match (a, b) {
        (Some(x), Some(y)) => x == y,
        (None, None) => true,
        _ => false,
    }
}

impl EmbeddingWeights {
    /// The checkpoint of the embedding.
    pub fn to_weight_map(&self) -> (r: WeightMap)
        ensures
            r.wf(),
            r@ == self@.weights(),
    {
        let mut map: WeightMap = WeightMap::new();
        map.insert_scalar("vocab_size", self.vocab_size as u64);
        map.insert_scalar("d_model", self.d_model as u64);
        match self.pad_id {
            Some(id) => {
                map.insert_scalar("has_pad_id", 1);
                map.insert_scalar("pad_id", id as u64);
            },
            None => {
                map.insert_scalar("has_pad_id", 0);
                map.insert_scalar("pad_id", 0);
            },
        }
        map.insert_matrix("weight", self.weight.duplicate());
        map
    }

    /// The embedding of the given shape that a checkpoint holds.
    pub fn from_weight_map(
        vocab_size: usize,
        d_model: usize,
        pad_id: Option<usize>,
        map: &WeightMap,
    ) -> (r: Result<Self, DataError>)
        requires
            map.wf(),
        ensures
            match r {
                Ok(layer) => EmbeddingModel::of_weights(vocab_size, d_model, pad_id, map@) == Ok::<
                    EmbeddingModel,
                    Fault,
                >(layer@),
                Err(e) => EmbeddingModel::of_weights(vocab_size, d_model, pad_id, map@) == Err::<
                    EmbeddingModel,
                    Fault,
                >(e@),
            },
    {
        let stored_vocab_size: u64 = map.get_scalar("vocab_size")?;
        let stored_d_model: u64 = map.get_scalar("d_model")?;
        let has_pad_id: u64 = map.get_scalar("has_pad_id")?;
        let stored_pad_id: Option<usize> = if has_pad_id == 1 {
            let id: u64 = map.get_scalar("pad_id")?;
            Some(id as usize)
        } else {
            None
        };
        if stored_vocab_size as usize != vocab_size || stored_d_model as usize != d_model
            || !same_id(stored_pad_id, pad_id) {
            return Err(DataError::Mismatch(Part::Embedding));
        }
        let weight: Vec<Vec<u32>> = map.get_matrix("weight")?.duplicate();
        Ok(EmbeddingWeights { vocab_size, d_model, pad_id, weight })
    }
}

/// An embedding comes back from its checkpoint.
pub proof fn law_embedding_comes_back(m: EmbeddingModel)
    ensures
        EmbeddingModel::of_weights(m.vocab_size, m.d_model, m.pad_id, m.weights()) == Ok::<
            EmbeddingModel,
            Fault,
        >(m),
{
    reveal_strlit("vocab_size");
    reveal_strlit("d_model");
    reveal_strlit("has_pad_id");
    reveal_strlit("pad_id");
    assert("vocab_size"@.len() == 10 && "has_pad_id"@.len() == 10);
    assert("d_model"@.len() == 7 && "pad_id"@.len() == 6);
    assert("vocab_size"@[0] != "has_pad_id"@[0]);
}

/// The vectors of the tokens, one row each.
pub fn lookup<T: Copy>(weight: &Vec<Vec<T>>, ids: &[usize], d_model: usize) -> (r: Matrix<T>)
    requires
        forall|i: int| 0 <= i < ids@.len() ==> (#[trigger] ids@[i]) < weight@.len(),
        matrix::even(weight@, d_model as nat),
    ensures
        r@.wf(),
        r@.rows == ids@.len(),
        r@.cols == d_model,
        forall|i: int|
            0 <= i < ids@.len() ==> #[trigger] r@.row(i) == weight@[ids@[i] as int]@,
{
    let n: usize = ids.len();
    let mut data: Vec<T> = Vec::new();
    let mut i: usize = 0;
    while i < n
        invariant
            i <= n,
            n == ids@.len(),
            forall|k: int| 0 <= k < ids@.len() ==> (#[trigger] ids@[k]) < weight@.len(),
            matrix::even(weight@, d_model as nat),
            data@.len() == i * d_model,
            forall|k: int|
                0 <= k < i ==> #[trigger] data@.subrange(k * d_model, k * d_model + d_model)
                    == weight@[ids@[k] as int]@,
        decreases n - i,
    {
        let ghost before = data@;
        let row: &Vec<T> = &weight[ids[i]];
        matrix::extend_with(&mut data, row.as_slice());
        proof {
            matrix::lemma_next_row(i as int, d_model as int);
            assert forall|k: int| 0 <= k < i + 1 implies #[trigger] data@.subrange(
                k * d_model,
                k * d_model + d_model,
            ) == weight@[ids@[k] as int]@ by {
                if k < i {
                    matrix::lemma_row_end(k, i as int, d_model as int);
                    assert(data@.subrange(k * d_model, k * d_model + d_model) =~= before.subrange(
                        k * d_model,
                        k * d_model + d_model,
                    ));
                } else {
                    assert(data@.subrange(k * d_model, k * d_model + d_model) =~= row@);
                }
            }
        }
        i += 1;
    }
    Matrix::from_flat(data, n, d_model)
}

/// The tokens whose vectors are trained: all but the padding.
pub fn trained_ids(vocab_size: usize, pad_id: Option<usize>) -> (r: Vec<usize>)
    ensures
        forall|i: int, j: int| 0 <= i < j < r@.len() ==> #[trigger] r@[i] < #[trigger] r@[j],
        forall|id: usize| #[trigger] r@.contains(id) <==> id < vocab_size && pad_id != Some(id),
{
    let mut r: Vec<usize> = Vec::new();
    let mut id: usize = 0;
    while id < vocab_size
        invariant
            id <= vocab_size,
            forall|i: int| 0 <= i < r@.len() ==> #[trigger] r@[i] < id,
            forall|i: int, j: int| 0 <= i < j < r@.len() ==> #[trigger] r@[i] < #[trigger] r@[j],
            forall|k: usize| #[trigger] r@.contains(k) <==> k < id && pad_id != Some(k),
        decreases vocab_size - id,
    {
        let ghost before = r@;
        if !same_id(pad_id, Some(id)) {
            r.push(id);
        }
        proof {
            assert forall|k: usize| #[trigger] r@.contains(k) <==> k < id + 1 && pad_id != Some(
                k,
            ) by {
                if before.contains(k) {
                    let i = choose|i: int| 0 <= i < before.len() && before[i] == k;
                    assert(r@[i] == k);
                }
                if k == id && pad_id != Some(id) {
                    assert(r@[r@.len() - 1] == id);
                }
                assert(before.contains(k) <==> k < id && pad_id != Some(k));
            }
        }
        id += 1;
    }
    r
}

} // verus!
