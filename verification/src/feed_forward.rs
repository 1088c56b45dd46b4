//! The kinds of feed-forward network and what is stored of them.

use crate::checkpoint::{Record, WeightMap, Weights};
use crate::error::{DataError, Family, Fault, Part};
use crate::table::Duplicate;
use vstd::prelude::*;

verus! {

/// A kind of feed-forward network.
#[derive(Clone, Copy, Debug, PartialEq, Eq, Structural)]
pub enum FeedForwardKind {
    /// A network with GELU.
    Gelu,
    /// A gated network.
    SwiGlu,
}

impl FeedForwardKind {
    /// The code of the kind in a checkpoint.
    pub open spec fn code(self) -> u64 {
        match self {
            FeedForwardKind::Gelu => 1,
            FeedForwardKind::SwiGlu => 2,
        }
    }

    /// The code of the kind in a checkpoint.
    pub fn as_u64(&self) -> (r: u64)
        ensures
            r == self.code(),
    {
        match self {
            FeedForwardKind::Gelu => 1,
            FeedForwardKind::SwiGlu => 2,
        }
    }

    /// The kind with the given code.
    pub fn from_u64(v: u64) -> (r: Result<Self, DataError>)
        ensures
            match r {
                Ok(kind) => v == kind.code(),
                Err(e) => e == DataError::UnknownCode(Family::FeedForward, v) && forall|kind: FeedForwardKind|
                    v != #[trigger] kind.code(),
            },
    {
        match v {
            1 => Ok(FeedForwardKind::Gelu),
            2 => Ok(FeedForwardKind::SwiGlu),
            other => Err(DataError::UnknownCode(Family::FeedForward, other)),
        }
    }
}

/// No two kinds have the same code.
pub proof fn law_feed_forward_codes_differ(a: FeedForwardKind, b: FeedForwardKind)
    requires
        a.code() == b.code(),
    ensures
        a == b,
{
}

/// What is stored of a network with GELU.
pub struct GeluWeights {
    pub d_model: usize,
    pub d_ff: usize,
    pub w1: Vec<Vec<u32>>,
    pub b1: Vec<u32>,
    pub w2: Vec<Vec<u32>>,
    pub b2: Vec<u32>,
}

/// What a `GeluWeights` stands for.
#[verifier::ext_equal]
pub struct GeluModel {
    pub d_model: usize,
    pub d_ff: usize,
    pub w1: Seq<Seq<u32>>,
    pub b1: Seq<u32>,
    pub w2: Seq<Seq<u32>>,
    pub b2: Seq<u32>,
}

impl View for GeluWeights {
    type V = GeluModel;

    open spec fn view(&self) -> GeluModel {
        GeluModel {
            d_model: self.d_model,
            d_ff: self.d_ff,
            w1: self.w1.deep_view(),
            b1: self.b1.deep_view(),
            w2: self.w2.deep_view(),
            b2: self.b2.deep_view(),
        }
    }
}

impl GeluModel {
    /// What a checkpoint of the layer holds.
    pub open spec fn weights(self) -> Weights {
        Weights::empty()
            .with(Record::Scalar("d_model"@, self.d_model as u64))
            .with(Record::Scalar("d_ff"@, self.d_ff as u64))
            .with(Record::Matrix("w1"@, self.w1))
            .with(Record::Vector("b1"@, self.b1))
            .with(Record::Matrix("w2"@, self.w2))
            .with(Record::Vector("b2"@, self.b2))
    }

    /// The layer of the given shape that a checkpoint holds, or what is wrong
    /// with the checkpoint.
    pub open spec fn of_weights(d_model: usize, d_ff: usize, w: Weights) -> Result<Self, Fault> {
        if !w.scalars.contains_key("d_model"@) {
            Err(Fault::MissingKey("d_model"@))
        } else if !w.scalars.contains_key("d_ff"@) {
            Err(Fault::MissingKey("d_ff"@))
        } else if w.scalars["d_model"@] as usize != d_model || w.scalars["d_ff"@] as usize != d_ff {
            Err(Fault::Mismatch(Part::FeedForward))
        } else if !w.matrices.contains_key("w1"@) {
            Err(Fault::MissingKey("w1"@))
        } else if !w.vectors.contains_key("b1"@) {
            Err(Fault::MissingKey("b1"@))
        } else if !w.matrices.contains_key("w2"@) {
            Err(Fault::MissingKey("w2"@))
        } else if !w.vectors.contains_key("b2"@) {
            Err(Fault::MissingKey("b2"@))
        } else {
            Ok(
                GeluModel {
                    d_model,
                    d_ff,
                    w1: w.matrices["w1"@],
                    b1: w.vectors["b1"@],
                    w2: w.matrices["w2"@],
                    b2: w.vectors["b2"@],
                },
            )
        }
    }
}

impl GeluWeights {
    /// The checkpoint of the layer.
    pub fn to_weight_map(&self) -> (r: WeightMap)
        ensures
            r.wf(),
            r@ == self@.weights(),
    {
        let mut map: WeightMap = WeightMap::new();
        map.insert_scalar("d_model", self.d_model as u64);
        map.insert_scalar("d_ff", self.d_ff as u64);
        map.insert_matrix("w1", self.w1.duplicate());
        map.insert_vector("b1", self.b1.duplicate());
        map.insert_matrix("w2", self.w2.duplicate());
        map.insert_vector("b2", self.b2.duplicate());
        map
    }

    /// The layer of the given shape that a checkpoint holds.
    pub fn from_weight_map(d_model: usize, d_ff: usize, map: &WeightMap) -> (r: Result<Self, DataError>)
        requires
            map.wf(),
        ensures
            match r {
                Ok(layer) => GeluModel::of_weights(d_model, d_ff, map@) == Ok::<GeluModel, Fault>(layer@),
                Err(e) => GeluModel::of_weights(d_model, d_ff, map@) == Err::<GeluModel, Fault>(e@),
            },
    {
        let stored_d_model: u64 = map.get_scalar("d_model")?;
        let stored_d_ff: u64 = map.get_scalar("d_ff")?;
        if stored_d_model as usize != d_model || stored_d_ff as usize != d_ff {
            return Err(DataError::Mismatch(Part::FeedForward));
        }
        let w1: Vec<Vec<u32>> = map.get_matrix("w1")?.duplicate();
        let b1: Vec<u32> = map.get_vector("b1")?.duplicate();
        let w2: Vec<Vec<u32>> = map.get_matrix("w2")?.duplicate();
        let b2: Vec<u32> = map.get_vector("b2")?.duplicate();
        Ok(GeluWeights { d_model, d_ff, w1, b1, w2, b2 })
    }
}

/// A network with GELU comes back from its checkpoint.
pub proof fn law_gelu_network_comes_back(m: GeluModel)
    ensures
        GeluModel::of_weights(m.d_model, m.d_ff, m.weights()) == Ok::<GeluModel, Fault>(m),
{
    reveal_strlit("d_model");
    reveal_strlit("d_ff");
    reveal_strlit("w1");
    reveal_strlit("b1");
    reveal_strlit("w2");
    reveal_strlit("b2");
    assert("d_model"@.len() == 7 && "d_ff"@.len() == 4);
    assert("w1"@.len() == 2 && "w2"@.len() == 2);
    assert("w1"@[1] != "w2"@[1]);
    assert("b1"@.len() == 2 && "b2"@.len() == 2);
    assert("b1"@[1] != "b2"@[1]);
}

/// What is stored of a gated network.
pub struct SwiGluWeights {
    pub d_model: usize,
    pub d_ff_g: usize,
    pub w_gate: Vec<Vec<u32>>,
    pub w_up: Vec<Vec<u32>>,
    pub w_down: Vec<Vec<u32>>,
}

/// What a `SwiGluWeights` stands for.
#[verifier::ext_equal]
pub struct SwiGluModel {
    pub d_model: usize,
    pub d_ff_g: usize,
    pub w_gate: Seq<Seq<u32>>,
    pub w_up: Seq<Seq<u32>>,
    pub w_down: Seq<Seq<u32>>,
}

impl View for SwiGluWeights {
    type V = SwiGluModel;

    open spec fn view(&self) -> SwiGluModel {
        SwiGluModel {
            d_model: self.d_model,
            d_ff_g: self.d_ff_g,
            w_gate: self.w_gate.deep_view(),
            w_up: self.w_up.deep_view(),
            w_down: self.w_down.deep_view(),
        }
    }
}

impl SwiGluModel {
    /// What a checkpoint of the layer holds.
    pub open spec fn weights(self) -> Weights {
        Weights::empty()
            .with(Record::Scalar("d_model"@, self.d_model as u64))
            .with(Record::Scalar("d_ff_g"@, self.d_ff_g as u64))
            .with(Record::Matrix("w_gate"@, self.w_gate))
            .with(Record::Matrix("w_up"@, self.w_up))
            .with(Record::Matrix("w_down"@, self.w_down))
    }

    /// The layer of the given shape that a checkpoint holds, or what is wrong
    /// with the checkpoint.
    pub open spec fn of_weights(d_model: usize, d_ff_g: usize, w: Weights) -> Result<Self, Fault> {
        if !w.scalars.contains_key("d_model"@) {
            Err(Fault::MissingKey("d_model"@))
        } else if !w.scalars.contains_key("d_ff_g"@) {
            Err(Fault::MissingKey("d_ff_g"@))
        } else if w.scalars["d_model"@] as usize != d_model || w.scalars["d_ff_g"@] as usize != d_ff_g {
            Err(Fault::Mismatch(Part::FeedForward))
        } else if !w.matrices.contains_key("w_gate"@) {
            Err(Fault::MissingKey("w_gate"@))
        } else if !w.matrices.contains_key("w_up"@) {
            Err(Fault::MissingKey("w_up"@))
        } else if !w.matrices.contains_key("w_down"@) {
            Err(Fault::MissingKey("w_down"@))
        } else {
            Ok(
                SwiGluModel {
                    d_model,
                    d_ff_g,
                    w_gate: w.matrices["w_gate"@],
                    w_up: w.matrices["w_up"@],
                    w_down: w.matrices["w_down"@],
                },
            )
        }
    }
}

impl SwiGluWeights {
    /// The checkpoint of the layer.
    pub fn to_weight_map(&self) -> (r: WeightMap)
        ensures
            r.wf(),
            r@ == self@.weights(),
    {
        let mut map: WeightMap = WeightMap::new();
        map.insert_scalar("d_model", self.d_model as u64);
        map.insert_scalar("d_ff_g", self.d_ff_g as u64);
        map.insert_matrix("w_gate", self.w_gate.duplicate());
        map.insert_matrix("w_up", self.w_up.duplicate());
        map.insert_matrix("w_down", self.w_down.duplicate());
        map
    }

    /// The layer of the given shape that a checkpoint holds.
    pub fn from_weight_map(d_model: usize, d_ff_g: usize, map: &WeightMap) -> (r: Result<Self, DataError>)
        requires
            map.wf(),
        ensures
            match r {
                Ok(layer) => SwiGluModel::of_weights(d_model, d_ff_g, map@) == Ok::<SwiGluModel, Fault>(layer@),
                Err(e) => SwiGluModel::of_weights(d_model, d_ff_g, map@) == Err::<SwiGluModel, Fault>(e@),
            },
    {
        let stored_d_model: u64 = map.get_scalar("d_model")?;
        let stored_d_ff_g: u64 = map.get_scalar("d_ff_g")?;
        if stored_d_model as usize != d_model || stored_d_ff_g as usize != d_ff_g {
            return Err(DataError::Mismatch(Part::FeedForward));
        }
        let w_gate: Vec<Vec<u32>> = map.get_matrix("w_gate")?.duplicate();
        let w_up: Vec<Vec<u32>> = map.get_matrix("w_up")?.duplicate();
        let w_down: Vec<Vec<u32>> = map.get_matrix("w_down")?.duplicate();
        Ok(SwiGluWeights { d_model, d_ff_g, w_gate, w_up, w_down })
    }
}

/// A gated network comes back from its checkpoint.
pub proof fn law_gated_network_comes_back(m: SwiGluModel)
    ensures
        SwiGluModel::of_weights(m.d_model, m.d_ff_g, m.weights()) == Ok::<SwiGluModel, Fault>(m),
{
    reveal_strlit("d_model");
    reveal_strlit("d_ff_g");
    reveal_strlit("w_gate");
    reveal_strlit("w_up");
    reveal_strlit("w_down");
    assert("d_model"@.len() == 7 && "d_ff_g"@.len() == 6);
    assert("w_gate"@.len() == 6 && "w_up"@.len() == 4 && "w_down"@.len() == 6);
    assert("w_gate"@[2] != "w_down"@[2]);
}

/// The number of units of a gated network: two thirds of those without a gate,
/// since it has three matrices in place of two.
pub fn gated_width(d_ff: usize) -> (r: usize)
    requires
        d_ff * 2 <= usize::MAX,
    ensures
        r == d_ff * 2 / 3,
{
    (d_ff * 2) / 3
}

/// The width of a gated network and the shapes of its three matrices.
#[derive(Clone, Copy, Debug)]
pub struct GatedShape {
    pub d_ff_g: usize,
    pub w_gate: (usize, usize),
    pub w_up: (usize, usize),
    pub w_down: (usize, usize),
}

impl GatedShape {
    /// The gated network in place of one with `d_ff` units and no gate.
    pub fn new(d_model: usize, d_ff: usize) -> (r: Self)
        requires
            d_ff * 2 <= usize::MAX,
        ensures
            r.d_ff_g == d_ff * 2 / 3,
            r.w_gate == (d_model, r.d_ff_g),
            r.w_up == (d_model, r.d_ff_g),
            r.w_down == (r.d_ff_g, d_model),
    {
        let d_ff_g: usize = gated_width(d_ff);
        GatedShape {
            d_ff_g,
            w_gate: (d_model, d_ff_g),
            w_up: (d_model, d_ff_g),
            w_down: (d_ff_g, d_model),
        }
    }
}

/// What is stored of a feed-forward network of either kind.
pub enum FeedForwardWeights {
    Gelu(GeluWeights),
    SwiGlu(SwiGluWeights),
}

/// What a `FeedForwardWeights` stands for.
#[verifier::ext_equal]
pub enum FeedForwardModel {
    Gelu(GeluModel),
    SwiGlu(SwiGluModel),
}

impl View for FeedForwardWeights {
    type V = FeedForwardModel;

    open spec fn view(&self) -> FeedForwardModel {
        match self {
            FeedForwardWeights::Gelu(n) => FeedForwardModel::Gelu(n@),
            FeedForwardWeights::SwiGlu(n) => FeedForwardModel::SwiGlu(n@),
        }
    }
}

impl FeedForwardModel {
    /// The kind of the network.
    pub open spec fn kind(self) -> FeedForwardKind {
        match self {
            FeedForwardModel::Gelu(_) => FeedForwardKind::Gelu,
            FeedForwardModel::SwiGlu(_) => FeedForwardKind::SwiGlu,
        }
    }

    /// The network has the widths that these numbers give.
    pub open spec fn fits(self, d_model: usize, d_ff: usize) -> bool {
        match self {
            FeedForwardModel::Gelu(n) => n.d_model == d_model && n.d_ff == d_ff,
            FeedForwardModel::SwiGlu(n) => n.d_model == d_model && n.d_ff_g == d_ff * 2 / 3,
        }
    }

    /// What a checkpoint of the network holds.
    pub open spec fn weights(self) -> Weights {
        match self {
            FeedForwardModel::Gelu(n) => n.weights(),
            FeedForwardModel::SwiGlu(n) => n.weights(),
        }
    }

    /// The network of the given kind and widths that a checkpoint holds, or what
    /// is wrong with the checkpoint.
    pub open spec fn of_weights(
        kind: FeedForwardKind,
        d_model: usize,
        d_ff: usize,
        w: Weights,
    ) -> Result<Self, Fault> {
        match kind {
            FeedForwardKind::Gelu => match GeluModel::of_weights(d_model, d_ff, w) {
                Ok(n) => Ok(FeedForwardModel::Gelu(n)),
                Err(e) => Err(e),
            },
            FeedForwardKind::SwiGlu => match SwiGluModel::of_weights(
                d_model,
                (d_ff * 2 / 3) as usize,
                w,
            ) {
                Ok(n) => Ok(FeedForwardModel::SwiGlu(n)),
                Err(e) => Err(e),
            },
        }
    }
}

impl FeedForwardWeights {
    /// The checkpoint of the network.
    pub fn to_weight_map(&self) -> (r: WeightMap)
        ensures
            r.wf(),
            r@ == self@.weights(),
    {
        match self {
            FeedForwardWeights::Gelu(n) => n.to_weight_map(),
            FeedForwardWeights::SwiGlu(n) => n.to_weight_map(),
        }
    }

    /// The network of the given kind and widths that a checkpoint holds.
    pub fn from_weight_map(
        kind: FeedForwardKind,
        d_model: usize,
        d_ff: usize,
        map: &WeightMap,
    ) -> (r: Result<Self, DataError>)
        requires
            map.wf(),
            kind == FeedForwardKind::SwiGlu ==> d_ff * 2 <= usize::MAX,
        ensures
            match r {
                Ok(n) => FeedForwardModel::of_weights(kind, d_model, d_ff, map@) == Ok::<
                    FeedForwardModel,
                    Fault,
                >(n@),
                Err(e) => FeedForwardModel::of_weights(kind, d_model, d_ff, map@) == Err::<
                    FeedForwardModel,
                    Fault,
                >(e@),
            },
    {
        match kind {
            FeedForwardKind::Gelu => Ok(
                FeedForwardWeights::Gelu(GeluWeights::from_weight_map(d_model, d_ff, map)?),
            ),
            FeedForwardKind::SwiGlu => {
                let d_ff_g: usize = gated_width(d_ff);
                Ok(FeedForwardWeights::SwiGlu(SwiGluWeights::from_weight_map(d_model, d_ff_g, map)?))
            },
        }
    }
}

/// A feed-forward network comes back from its checkpoint.
pub proof fn law_feed_forward_comes_back(m: FeedForwardModel, d_model: usize, d_ff: usize)
    requires
        m.fits(d_model, d_ff),
    ensures
        FeedForwardModel::of_weights(m.kind(), d_model, d_ff, m.weights()) == Ok::<
            FeedForwardModel,
            Fault,
        >(m),
{
    match m {
        FeedForwardModel::Gelu(n) => law_gelu_network_comes_back(n),
        FeedForwardModel::SwiGlu(n) => law_gated_network_comes_back(n),
    }
}

} // verus!
