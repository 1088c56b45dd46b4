//! What is stored of a language model.

use crate::adam_w::{AdamWModel, AdamWState};
use crate::checkpoint::{Record, WeightMap, Weights};
use crate::embedding::{self, EmbeddingModel, EmbeddingWeights};
use crate::error::{DataError, Fault};
use crate::feed_forward::FeedForwardKind;
use crate::normalization::NormalizationKind;
use crate::output_head::{self, OutputHeadModel, OutputHeadWeights};
use crate::positional_encoding::PositionalEncodingKind;
use crate::scopes;
use crate::tokenizer::{self, AnyTokenizer, Tokenizer};
use crate::transformer::{self, LayerConfig, TransformerModel, TransformerWeights};
use vstd::prelude::*;

verus! {

/// The numbers that a model is built from.
#[derive(Clone, Copy, Debug, PartialEq, Eq, Structural)]
pub struct ModelMeta {
    pub d_model: usize,
    pub n_heads: usize,
    pub d_ff: usize,
    pub n_layers: usize,
    pub max_len: usize,
    /// The bit pattern of the dropout rate.
    pub dropout_bits: u32,
    pub normalization_kind: NormalizationKind,
    pub feed_forward_kind: FeedForwardKind,
    pub positional_encoding_kind: PositionalEncodingKind,
}

/// The normalization that a checkpoint names. Without a known code it is a layer
/// normalization.
pub open spec fn stored_normalization(w: Weights) -> NormalizationKind {
    if w.scalars.contains_key("meta.normalization_kind"@) && w.scalars["meta.normalization_kind"@]
        == NormalizationKind::Rms.code() {
        NormalizationKind::Rms
    } else {
        NormalizationKind::Layer
    }
}

/// The feed-forward network that a checkpoint names. Without a known code it is
/// one with GELU.
pub open spec fn stored_feed_forward(w: Weights) -> FeedForwardKind {
    if w.scalars.contains_key("meta.feed_forward_kind"@) && w.scalars["meta.feed_forward_kind"@]
        == FeedForwardKind::SwiGlu.code() {
        FeedForwardKind::SwiGlu
    } else {
        FeedForwardKind::Gelu
    }
}

/// The positional encoding that a checkpoint names. Without a known code it is
/// the sinusoidal one.
pub open spec fn stored_positional_encoding(w: Weights) -> PositionalEncodingKind {
    if w.scalars.contains_key("meta.positional_encoding_kind"@)
        && w.scalars["meta.positional_encoding_kind"@] == PositionalEncodingKind::Rope.code() {
        PositionalEncodingKind::Rope
    } else {
        PositionalEncodingKind::Sinusoidal
    }
}

/// The dropout rate that a checkpoint names. Without one it is zero.
pub open spec fn stored_dropout(w: Weights) -> u32 {
    if w.scalars.contains_key("meta.dropout_p"@) {
        w.scalars["meta.dropout_p"@] as u32
    } else {
        0
    }
}

impl ModelMeta {
    /// The numbers of the layers. Every query head has a key head of its own.
    pub open spec fn layers(self) -> LayerConfig {
        LayerConfig {
            d_model: self.d_model,
            n_heads: self.n_heads,
            n_kv_heads: self.n_heads,
            d_ff: self.d_ff,
            normalization_kind: self.normalization_kind,
            feed_forward_kind: self.feed_forward_kind,
        }
    }

    /// The numbers of the layers.
    pub fn layer_config(&self) -> (r: LayerConfig)
        ensures
            r == self.layers(),
    {
        LayerConfig {
            d_model: self.d_model,
            n_heads: self.n_heads,
            n_kv_heads: self.n_heads,
            d_ff: self.d_ff,
            normalization_kind: self.normalization_kind,
            feed_forward_kind: self.feed_forward_kind,
        }
    }

    /// What a checkpoint holds of the numbers.
    pub open spec fn weights(self) -> Weights {
        Weights::empty().with(Record::Scalar("meta.d_model"@, self.d_model as u64)).with(
            Record::Scalar("meta.n_heads"@, self.n_heads as u64),
        ).with(Record::Scalar("meta.d_ff"@, self.d_ff as u64)).with(
            Record::Scalar("meta.n_layers"@, self.n_layers as u64),
        ).with(Record::Scalar("meta.max_len"@, self.max_len as u64)).with(
            Record::Scalar("meta.dropout_p"@, self.dropout_bits as u64),
        ).with(
            Record::Scalar("meta.normalization_kind"@, self.normalization_kind.code()),
        ).with(Record::Scalar("meta.feed_forward_kind"@, self.feed_forward_kind.code())).with(
            Record::Scalar("meta.positional_encoding_kind"@, self.positional_encoding_kind.code()),
        )
    }

    /// The numbers that a checkpoint holds, or what is wrong with the checkpoint.
    pub open spec fn of_weights(w: Weights) -> Result<Self, Fault> {
        if !w.scalars.contains_key("meta.d_model"@) {
            Err(Fault::MissingKey("meta.d_model"@))
        } else if !w.scalars.contains_key("meta.n_heads"@) {
            Err(Fault::MissingKey("meta.n_heads"@))
        } else if !w.scalars.contains_key("meta.d_ff"@) {
            Err(Fault::MissingKey("meta.d_ff"@))
        } else if !w.scalars.contains_key("meta.n_layers"@) {
            Err(Fault::MissingKey("meta.n_layers"@))
        } else if !w.scalars.contains_key("meta.max_len"@) {
            Err(Fault::MissingKey("meta.max_len"@))
        } else {
            Ok(
                ModelMeta {
                    d_model: w.scalars["meta.d_model"@] as usize,
                    n_heads: w.scalars["meta.n_heads"@] as usize,
                    d_ff: w.scalars["meta.d_ff"@] as usize,
                    n_layers: w.scalars["meta.n_layers"@] as usize,
                    max_len: w.scalars["meta.max_len"@] as usize,
                    dropout_bits: stored_dropout(w),
                    normalization_kind: stored_normalization(w),
                    feed_forward_kind: stored_feed_forward(w),
                    positional_encoding_kind: stored_positional_encoding(w),
                },
            )
        }
    }

    /// The numbers as a checkpoint holds them.
    pub fn to_weight_map(&self) -> (r: WeightMap)
        ensures
            r.wf(),
            r@ == self.weights(),
    {
        let mut map: WeightMap = WeightMap::new();
        map.insert_scalar("meta.d_model", self.d_model as u64);
        map.insert_scalar("meta.n_heads", self.n_heads as u64);
        map.insert_scalar("meta.d_ff", self.d_ff as u64);
        map.insert_scalar("meta.n_layers", self.n_layers as u64);
        map.insert_scalar("meta.max_len", self.max_len as u64);
        map.insert_scalar("meta.dropout_p", self.dropout_bits as u64);
        map.insert_scalar("meta.normalization_kind", self.normalization_kind.as_u64());
        map.insert_scalar("meta.feed_forward_kind", self.feed_forward_kind.as_u64());
        map.insert_scalar("meta.positional_encoding_kind", self.positional_encoding_kind.as_u64());
        map
    }

    /// The numbers that a checkpoint holds.
    pub fn from_weight_map(map: &WeightMap) -> (r: Result<Self, DataError>)
        requires
            map.wf(),
        ensures
            match r {
                Ok(meta) => ModelMeta::of_weights(map@) == Ok::<ModelMeta, Fault>(meta),
                Err(e) => ModelMeta::of_weights(map@) == Err::<ModelMeta, Fault>(e@),
            },
    {
        let d_model: u64 = map.get_scalar("meta.d_model")?;
        let n_heads: u64 = map.get_scalar("meta.n_heads")?;
        let d_ff: u64 = map.get_scalar("meta.d_ff")?;
        let n_layers: u64 = map.get_scalar("meta.n_layers")?;
        let max_len: u64 = map.get_scalar("meta.max_len")?;
        let dropout_bits: u32 = match map.get_scalar("meta.dropout_p") {
            Ok(v) => v as u32,
            Err(_) => 0,
        };
        let normalization_kind: NormalizationKind = match map.get_scalar(
            "meta.normalization_kind",
        ) {
            Ok(v) => match NormalizationKind::from_u64(v) {
                Ok(kind) => kind,
                Err(_) => {
                    assert(v != NormalizationKind::Rms.code());
                    NormalizationKind::Layer
                },
            },
            Err(_) => NormalizationKind::Layer,
        };
        let feed_forward_kind: FeedForwardKind = match map.get_scalar("meta.feed_forward_kind") {
            Ok(v) => match FeedForwardKind::from_u64(v) {
                Ok(kind) => kind,
                Err(_) => {
                    assert(v != FeedForwardKind::SwiGlu.code());
                    FeedForwardKind::Gelu
                },
            },
            Err(_) => FeedForwardKind::Gelu,
        };
        let positional_encoding_kind: PositionalEncodingKind = match map.get_scalar(
            "meta.positional_encoding_kind",
        ) {
            Ok(v) => match PositionalEncodingKind::from_u64(v) {
                Ok(kind) => kind,
                Err(_) => {
                    assert(v != PositionalEncodingKind::Rope.code());
                    PositionalEncodingKind::Sinusoidal
                },
            },
            Err(_) => PositionalEncodingKind::Sinusoidal,
        };
        Ok(
            ModelMeta {
                d_model: d_model as usize,
                n_heads: n_heads as usize,
                d_ff: d_ff as usize,
                n_layers: n_layers as usize,
                max_len: max_len as usize,
                dropout_bits,
                normalization_kind,
                feed_forward_kind,
                positional_encoding_kind,
            },
        )
    }
}

/// What is stored of a model.
pub struct ModelWeights {
    pub meta: ModelMeta,
    pub tokenizer: AnyTokenizer,
    pub embedding: EmbeddingWeights,
    pub transformer: TransformerWeights,
    pub output_head: OutputHeadWeights,
}

/// The parts of a model that are trained.
#[verifier::ext_equal]
pub struct TrainedParts {
    pub embedding: EmbeddingModel,
    pub transformer: TransformerModel,
    pub output_head: OutputHeadModel,
}

/// The scopes of a model.
pub open spec fn model_scopes() -> (Seq<char>, Seq<char>, Seq<char>, Seq<char>) {
    ("tokenizer"@, "embedding"@, "transformer"@, "output_head"@)
}

impl TrainedParts {
    /// The parts are built from the numbers of `meta`, for a vocabulary of the
    /// given size.
    pub open spec fn fits(self, meta: ModelMeta, vocab_size: usize, pad_id: usize) -> bool {
        &&& self.embedding.vocab_size == vocab_size
        &&& self.embedding.d_model == meta.d_model
        &&& self.embedding.pad_id == Some(pad_id)
        &&& self.transformer.fits(meta.layers())
        &&& self.transformer.blocks.len() == meta.n_layers
        &&& self.output_head.vocab_size == vocab_size
        &&& self.output_head.d_model == meta.d_model
    }

    /// The parts that a checkpoint holds, or what is wrong with the checkpoint.
    pub open spec fn of_weights(
        meta: ModelMeta,
        vocab_size: usize,
        pad_id: usize,
        w: Weights,
    ) -> Result<Self, Fault> {
        match EmbeddingModel::of_weights(
            vocab_size,
            meta.d_model,
            Some(pad_id),
            w.scoped("embedding"@),
        ) {
            Err(e) => Err(e),
            Ok(embedding) => match TransformerModel::of_weights(
                meta.layers(),
                meta.n_layers,
                w.scoped("transformer"@),
            ) {
                Err(e) => Err(e),
                Ok(transformer) => match OutputHeadModel::of_weights(
                    vocab_size,
                    meta.d_model,
                    w.scoped("output_head"@),
                ) {
                    Err(e) => Err(e),
                    Ok(output_head) => Ok(TrainedParts { embedding, transformer, output_head }),
                },
            },
        }
    }
}

/// What a checkpoint of a model holds.
pub open spec fn model_weights(meta: ModelMeta, tokenizer: Weights, parts: TrainedParts) -> Weights {
    scopes::four_parts(
        meta.weights(),
        model_scopes(),
        (
            tokenizer,
            parts.embedding.weights(),
            parts.transformer.weights(),
            parts.output_head.weights(),
        ),
    )
}

/// The model can be built from what the checkpoint names: its numbers fit
/// together, wherever the checkpoint holds them and a tokenizer.
pub open spec fn buildable(w: Weights) -> bool {
    match ModelMeta::of_weights(w) {
        Ok(meta) => tokenizer::loadable(w.scoped("tokenizer"@)) && meta.n_layers > 0
            ==> meta.layers().sound(),
        Err(_) => true,
    }
}

/// Why a model cannot be restored: of the numbers, the tokenizer and the trained
/// parts, what is wrong with the first that cannot be loaded.
pub open spec fn restore_error(w: Weights, e: DataError) -> bool {
    match ModelMeta::of_weights(w) {
        Err(f) => e@ == f,
        Ok(meta) => if !tokenizer::loadable(w.scoped("tokenizer"@)) {
            tokenizer::load_error(w.scoped("tokenizer"@), e)
        } else {
            exists|t: AnyTokenizer|
                #![trigger t.size()]
                tokenizer::restored(w.scoped("tokenizer"@), t) && TrainedParts::of_weights(
                    meta,
                    t.size() as usize,
                    t.pad(),
                    w,
                ) == Err::<TrainedParts, Fault>(e@)
        },
    }
}

impl ModelWeights {
    /// The parts of the model that are trained.
    pub open spec fn parts(&self) -> TrainedParts {
        TrainedParts {
            embedding: self.embedding@,
            transformer: self.transformer@,
            output_head: self.output_head@,
        }
    }

    /// The checkpoint of the model.
    pub fn build_weight_map(&self) -> (r: WeightMap)
        requires
            self.tokenizer.ready(),
        ensures
            r.wf(),
            r@ == model_weights(self.meta, self.tokenizer.stored(), self.parts()),
    {
        let mut map: WeightMap = self.meta.to_weight_map();
        map.merge("tokenizer", self.tokenizer.to_weight_map());
        map.merge("embedding", self.embedding.to_weight_map());
        map.merge("transformer", self.transformer.to_weight_map());
        map.merge("output_head", self.output_head.to_weight_map());
        map
    }

    /// The model that a checkpoint holds.
    pub fn restore_model(map: &WeightMap) -> (r: Result<Self, DataError>)
        requires
            map.wf(),
            buildable(map@),
        ensures
            match r {
                Ok(m) => {
                    &&& ModelMeta::of_weights(map@) == Ok::<ModelMeta, Fault>(m.meta)
                    &&& tokenizer::restored(map@.scoped("tokenizer"@), m.tokenizer)
                    &&& TrainedParts::of_weights(
                        m.meta,
                        m.tokenizer.size() as usize,
                        m.tokenizer.pad(),
                        map@,
                    ) == Ok::<TrainedParts, Fault>(m.parts())
                },
                Err(e) => restore_error(map@, e),
            },
    {
        let meta: ModelMeta = ModelMeta::from_weight_map(map)?;
        let tokenizer: AnyTokenizer = tokenizer::load_tokenizer(&map.scoped("tokenizer"))?;
        let vocab_size: usize = tokenizer.vocab_size();
        let pad_id: usize = tokenizer.pad_id();
        assert(tokenizer.size() == vocab_size);
        let embedding: EmbeddingWeights = EmbeddingWeights::from_weight_map(
            vocab_size,
            meta.d_model,
            Some(pad_id),
            &map.scoped("embedding"),
        )?;
        let transformer: TransformerWeights = TransformerWeights::from_weight_map(
            meta.layer_config(),
            meta.n_layers,
            &map.scoped("transformer"),
        )?;
        let output_head: OutputHeadWeights = OutputHeadWeights::from_weight_map(
            vocab_size,
            meta.d_model,
            &map.scoped("output_head"),
        )?;
        Ok(ModelWeights { meta, tokenizer, embedding, transformer, output_head })
    }
}

/// A key that starts like no scope does lies in none.
proof fn lemma_starts_otherwise(prefix: Seq<char>, key: Seq<char>)
    requires
        prefix.len() > 0,
        key.len() > 0,
        prefix[0] != key[0],
    ensures
        scopes::outside(prefix, key),
{
    assert(scopes::differ_at(scopes::opening(prefix), key, 0));
}

/// The numbers of a model lie in no scope that starts otherwise.
proof fn lemma_meta_outside(prefix: Seq<char>)
    requires
        prefix.len() > 0,
        prefix[0] != 'm',
    ensures
        scopes::outside(prefix, "meta.d_model"@),
        scopes::outside(prefix, "meta.n_heads"@),
        scopes::outside(prefix, "meta.d_ff"@),
        scopes::outside(prefix, "meta.n_layers"@),
        scopes::outside(prefix, "meta.max_len"@),
        scopes::outside(prefix, "meta.dropout_p"@),
        scopes::outside(prefix, "meta.normalization_kind"@),
        scopes::outside(prefix, "meta.feed_forward_kind"@),
        scopes::outside(prefix, "meta.positional_encoding_kind"@),
        scopes::outside(prefix, "meta.step"@),
{
    reveal_strlit("meta.d_model");
    lemma_starts_otherwise(prefix, "meta.d_model"@);
    reveal_strlit("meta.n_heads");
    lemma_starts_otherwise(prefix, "meta.n_heads"@);
    reveal_strlit("meta.d_ff");
    lemma_starts_otherwise(prefix, "meta.d_ff"@);
    reveal_strlit("meta.n_layers");
    lemma_starts_otherwise(prefix, "meta.n_layers"@);
    reveal_strlit("meta.max_len");
    lemma_starts_otherwise(prefix, "meta.max_len"@);
    reveal_strlit("meta.dropout_p");
    lemma_starts_otherwise(prefix, "meta.dropout_p"@);
    reveal_strlit("meta.normalization_kind");
    lemma_starts_otherwise(prefix, "meta.normalization_kind"@);
    reveal_strlit("meta.feed_forward_kind");
    lemma_starts_otherwise(prefix, "meta.feed_forward_kind"@);
    reveal_strlit("meta.positional_encoding_kind");
    lemma_starts_otherwise(prefix, "meta.positional_encoding_kind"@);
    reveal_strlit("meta.step");
    lemma_starts_otherwise(prefix, "meta.step"@);
}

/// No number of a model lies in a scope that starts otherwise.
proof fn lemma_meta_scope(meta: ModelMeta, prefix: Seq<char>)
    requires
        prefix.len() > 0,
        prefix[0] != 'm',
    ensures
        meta.weights().scoped(prefix) == Weights::empty(),
{
    lemma_meta_outside(prefix);
    scopes::lemma_scope_of_empty(prefix);
    let w0 = Weights::empty();
    let r0 = Record::Scalar("meta.d_model"@, meta.d_model as u64);
    let w1 = w0.with(r0);
    scopes::lemma_scope_with(w0, prefix, r0);
    let r1 = Record::Scalar("meta.n_heads"@, meta.n_heads as u64);
    let w2 = w1.with(r1);
    scopes::lemma_scope_with(w1, prefix, r1);
    let r2 = Record::Scalar("meta.d_ff"@, meta.d_ff as u64);
    let w3 = w2.with(r2);
    scopes::lemma_scope_with(w2, prefix, r2);
    let r3 = Record::Scalar("meta.n_layers"@, meta.n_layers as u64);
    let w4 = w3.with(r3);
    scopes::lemma_scope_with(w3, prefix, r3);
    let r4 = Record::Scalar("meta.max_len"@, meta.max_len as u64);
    let w5 = w4.with(r4);
    scopes::lemma_scope_with(w4, prefix, r4);
    let r5 = Record::Scalar("meta.dropout_p"@, meta.dropout_bits as u64);
    let w6 = w5.with(r5);
    scopes::lemma_scope_with(w5, prefix, r5);
    let r6 = Record::Scalar("meta.normalization_kind"@, meta.normalization_kind.code());
    let w7 = w6.with(r6);
    scopes::lemma_scope_with(w6, prefix, r6);
    let r7 = Record::Scalar("meta.feed_forward_kind"@, meta.feed_forward_kind.code());
    let w8 = w7.with(r7);
    scopes::lemma_scope_with(w7, prefix, r7);
    let r8 = Record::Scalar("meta.positional_encoding_kind"@, meta.positional_encoding_kind.code());
    let w9 = w8.with(r8);
    scopes::lemma_scope_with(w8, prefix, r8);
}

/// The numbers of a model come back from their checkpoint.
pub proof fn law_meta_comes_back(meta: ModelMeta)
    ensures
        ModelMeta::of_weights(meta.weights()) == Ok::<ModelMeta, Fault>(meta),
{
    reveal_strlit("meta.d_model");
    reveal_strlit("meta.n_heads");
    reveal_strlit("meta.d_ff");
    reveal_strlit("meta.n_layers");
    reveal_strlit("meta.max_len");
    reveal_strlit("meta.dropout_p");
    reveal_strlit("meta.normalization_kind");
    reveal_strlit("meta.feed_forward_kind");
    reveal_strlit("meta.positional_encoding_kind");
    assert("meta.d_model"@.len() == 12);
    assert("meta.n_heads"@.len() == 12);
    assert("meta.d_ff"@.len() == 9);
    assert("meta.n_layers"@.len() == 13);
    assert("meta.max_len"@.len() == 12);
    assert("meta.dropout_p"@.len() == 14);
    assert("meta.normalization_kind"@.len() == 23);
    assert("meta.feed_forward_kind"@.len() == 22);
    assert("meta.positional_encoding_kind"@.len() == 29);
    assert("meta.d_model"@[5] != "meta.n_heads"@[5]);
    assert("meta.d_model"@[5] != "meta.max_len"@[5]);
    assert("meta.n_heads"@[5] != "meta.max_len"@[5]);
    assert((meta.dropout_bits as u64) as u32 == meta.dropout_bits);
}

/// The scopes of a model are apart and start otherwise than its numbers.
proof fn lemma_model_scopes()
    ensures
        scopes::all_apart(model_scopes()),
        "tokenizer"@.len() > 0 && "tokenizer"@[0] != 'm',
        "embedding"@.len() > 0 && "embedding"@[0] != 'm',
        "transformer"@.len() > 0 && "transformer"@[0] != 'm',
        "output_head"@.len() > 0 && "output_head"@[0] != 'm',
        "optimizer"@.len() > 0 && "optimizer"@[0] != 'm',
        scopes::apart("tokenizer"@, "optimizer"@),
        scopes::apart("embedding"@, "optimizer"@),
        scopes::apart("transformer"@, "optimizer"@),
        scopes::apart("output_head"@, "optimizer"@),
{
    reveal_strlit("tokenizer");
    reveal_strlit("embedding");
    reveal_strlit("transformer");
    reveal_strlit("output_head");
    reveal_strlit("optimizer");
    let (a, b, c, d, e) = (
        scopes::opening("tokenizer"@),
        scopes::opening("embedding"@),
        scopes::opening("transformer"@),
        scopes::opening("output_head"@),
        scopes::opening("optimizer"@),
    );
    assert(scopes::differ_at(a, b, 0));
    assert(scopes::differ_at(a, c, 1));
    assert(scopes::differ_at(a, d, 0));
    assert(scopes::differ_at(b, c, 0));
    assert(scopes::differ_at(b, d, 0));
    assert(scopes::differ_at(c, d, 0));
    assert(scopes::differ_at(a, e, 0));
    assert(scopes::differ_at(b, e, 0));
    assert(scopes::differ_at(c, e, 0));
    assert(scopes::differ_at(d, e, 1));
}

/// Two checkpoints hold the same under a scalar's key.
spec fn same_scalar(a: Weights, b: Weights, key: Seq<char>) -> bool {
    &&& a.scalars.contains_key(key) == b.scalars.contains_key(key)
    &&& a.scalars.contains_key(key) ==> a.scalars[key] == b.scalars[key]
}

/// Checkpoints with the same scalars of the numbers hold the same numbers.
proof fn lemma_same_meta(a: Weights, b: Weights)
    requires
        same_scalar(a, b, "meta.d_model"@),
        same_scalar(a, b, "meta.n_heads"@),
        same_scalar(a, b, "meta.d_ff"@),
        same_scalar(a, b, "meta.n_layers"@),
        same_scalar(a, b, "meta.max_len"@),
        same_scalar(a, b, "meta.dropout_p"@),
        same_scalar(a, b, "meta.normalization_kind"@),
        same_scalar(a, b, "meta.feed_forward_kind"@),
        same_scalar(a, b, "meta.positional_encoding_kind"@),
    ensures
        ModelMeta::of_weights(a) == ModelMeta::of_weights(b),
{
}

/// The parts of a model are found in its checkpoint.
pub proof fn lemma_model_parts(meta: ModelMeta, tokenizer: Weights, parts: TrainedParts)
    ensures
        ({
            let w = model_weights(meta, tokenizer, parts);
            &&& ModelMeta::of_weights(w) == ModelMeta::of_weights(meta.weights())
            &&& w.scoped("tokenizer"@) == tokenizer
            &&& w.scoped("embedding"@) == parts.embedding.weights()
            &&& w.scoped("transformer"@) == parts.transformer.weights()
            &&& w.scoped("output_head"@) == parts.output_head.weights()
        }),
{
    lemma_model_scopes();
    let p = model_scopes();
    let all = (
        tokenizer,
        parts.embedding.weights(),
        parts.transformer.weights(),
        parts.output_head.weights(),
    );
    lemma_meta_scope(meta, p.0);
    lemma_meta_scope(meta, p.1);
    lemma_meta_scope(meta, p.2);
    lemma_meta_scope(meta, p.3);
    scopes::lemma_four_parts(meta.weights(), p, all);
    lemma_meta_outside(p.0);
    lemma_meta_outside(p.1);
    lemma_meta_outside(p.2);
    lemma_meta_outside(p.3);
    scopes::lemma_scalar_beside_four_parts(meta.weights(), p, all, "meta.d_model"@);
    scopes::lemma_scalar_beside_four_parts(meta.weights(), p, all, "meta.n_heads"@);
    scopes::lemma_scalar_beside_four_parts(meta.weights(), p, all, "meta.d_ff"@);
    scopes::lemma_scalar_beside_four_parts(meta.weights(), p, all, "meta.n_layers"@);
    scopes::lemma_scalar_beside_four_parts(meta.weights(), p, all, "meta.max_len"@);
    scopes::lemma_scalar_beside_four_parts(meta.weights(), p, all, "meta.dropout_p"@);
    scopes::lemma_scalar_beside_four_parts(meta.weights(), p, all, "meta.normalization_kind"@);
    scopes::lemma_scalar_beside_four_parts(meta.weights(), p, all, "meta.feed_forward_kind"@);
    scopes::lemma_scalar_beside_four_parts(meta.weights(), p, all, "meta.positional_encoding_kind"@);
    lemma_same_meta(model_weights(meta, tokenizer, parts), meta.weights());
}

/// The trained parts are loaded if each of them is.
proof fn lemma_trained_of_parts(
    parts: TrainedParts,
    meta: ModelMeta,
    vocab_size: usize,
    pad_id: usize,
    w: Weights,
)
    requires
        EmbeddingModel::of_weights(
            vocab_size,
            meta.d_model,
            Some(pad_id),
            w.scoped("embedding"@),
        ) == Ok::<EmbeddingModel, Fault>(parts.embedding),
        TransformerModel::of_weights(meta.layers(), meta.n_layers, w.scoped("transformer"@))
            == Ok::<TransformerModel, Fault>(parts.transformer),
        OutputHeadModel::of_weights(vocab_size, meta.d_model, w.scoped("output_head"@)) == Ok::<
            OutputHeadModel,
            Fault,
        >(parts.output_head),
    ensures
        TrainedParts::of_weights(meta, vocab_size, pad_id, w) == Ok::<TrainedParts, Fault>(parts),
{
}

/// The trained parts come back from any checkpoint that holds them in their
/// scopes.
proof fn lemma_trained_parts_come_back(
    parts: TrainedParts,
    meta: ModelMeta,
    vocab_size: usize,
    pad_id: usize,
    w: Weights,
)
    requires
        parts.fits(meta, vocab_size, pad_id),
        w.scoped("embedding"@) == parts.embedding.weights(),
        w.scoped("transformer"@) == parts.transformer.weights(),
        w.scoped("output_head"@) == parts.output_head.weights(),
    ensures
        TrainedParts::of_weights(meta, vocab_size, pad_id, w) == Ok::<TrainedParts, Fault>(parts),
{
    assert(EmbeddingModel::of_weights(
        vocab_size,
        meta.d_model,
        Some(pad_id),
        parts.embedding.weights(),
    ) == Ok::<EmbeddingModel, Fault>(parts.embedding)) by {
        embedding::law_embedding_comes_back(parts.embedding);
    }
    assert(TransformerModel::of_weights(meta.layers(), meta.n_layers, parts.transformer.weights())
        == Ok::<TransformerModel, Fault>(parts.transformer)) by {
        transformer::law_transformer_comes_back(parts.transformer, meta.layers());
    }
    assert(OutputHeadModel::of_weights(vocab_size, meta.d_model, parts.output_head.weights())
        == Ok::<OutputHeadModel, Fault>(parts.output_head)) by {
        output_head::law_output_head_comes_back(parts.output_head);
    }
    lemma_trained_of_parts(parts, meta, vocab_size, pad_id, w);
}

/// A model comes back from its checkpoint: its numbers, what is stored of its
/// tokenizer, and its trained parts.
pub proof fn law_model_comes_back(
    meta: ModelMeta,
    tokenizer: Weights,
    parts: TrainedParts,
    vocab_size: usize,
    pad_id: usize,
)
    requires
        parts.fits(meta, vocab_size, pad_id),
    ensures
        ({
            let w = model_weights(meta, tokenizer, parts);
            &&& ModelMeta::of_weights(w) == Ok::<ModelMeta, Fault>(meta)
            &&& w.scoped("tokenizer"@) == tokenizer
            &&& TrainedParts::of_weights(meta, vocab_size, pad_id, w) == Ok::<TrainedParts, Fault>(
                parts,
            )
        }),
{
    assert(ModelMeta::of_weights(meta.weights()) == Ok::<ModelMeta, Fault>(meta)) by {
        law_meta_comes_back(meta);
    }
    let w = model_weights(meta, tokenizer, parts);
    assert(ModelMeta::of_weights(w) == ModelMeta::of_weights(meta.weights()) && w.scoped(
        "tokenizer"@,
    ) == tokenizer && w.scoped("embedding"@) == parts.embedding.weights() && w.scoped(
        "transformer"@,
    ) == parts.transformer.weights() && w.scoped("output_head"@) == parts.output_head.weights())
        by {
        lemma_model_parts(meta, tokenizer, parts);
    }
    lemma_trained_parts_come_back(parts, meta, vocab_size, pad_id, w);
}

/// What a checkpoint of a training run holds: the model, the step and the
/// optimizer.
pub open spec fn training_weights(model: Weights, step: usize, optimizer: Weights) -> Weights {
    model.with(Record::Scalar("meta.step"@, step as u64)).merged("optimizer"@, optimizer)
}

/// The checkpoint holds a model.
pub open spec fn restorable(w: Weights) -> bool {
    match ModelMeta::of_weights(w) {
        Err(_) => false,
        Ok(meta) => exists|t: AnyTokenizer|
            #![trigger t.size()]
            tokenizer::restored(w.scoped("tokenizer"@), t) && TrainedParts::of_weights(
                meta,
                t.size() as usize,
                t.pad(),
                w,
            ) is Ok,
    }
}

/// Why a training run cannot be restored: of the model, the step and the
/// optimizer, what is wrong with the first that cannot be loaded.
pub open spec fn resume_error(w: Weights, e: DataError) -> bool {
    if !restorable(w) {
        restore_error(w, e)
    } else if !w.scalars.contains_key("meta.step"@) {
        e.is_missing("meta.step"@)
    } else {
        AdamWModel::of_weights(w.scoped("optimizer"@)) == Err::<AdamWModel, Fault>(e@)
    }
}

/// A checkpoint from which a model cannot be restored holds none.
proof fn lemma_not_restorable(w: Weights, e: DataError)
    requires
        restore_error(w, e),
    ensures
        !restorable(w),
{
    let scope = w.scoped("tokenizer"@);
    if restorable(w) {
        let meta = ModelMeta::of_weights(w)->Ok_0;
        let a = choose|t: AnyTokenizer|
            #![trigger t.size()]
            tokenizer::restored(scope, t) && TrainedParts::of_weights(
                meta,
                t.size() as usize,
                t.pad(),
                w,
            ) is Ok;
        assert(tokenizer::loadable(scope));
        let b = choose|t: AnyTokenizer|
            #![trigger t.size()]
            tokenizer::restored(scope, t) && TrainedParts::of_weights(
                meta,
                t.size() as usize,
                t.pad(),
                w,
            ) == Err::<TrainedParts, Fault>(e@);
        tokenizer::lemma_restored_alike(scope, a, b);
    }
}

impl ModelWeights {
    /// The checkpoint of a training run.
    pub fn build_training_map(&self, opt: &AdamWState, step: usize) -> (r: WeightMap)
        requires
            self.tokenizer.ready(),
            opt.wf(),
        ensures
            r.wf(),
            r@ == training_weights(
                model_weights(self.meta, self.tokenizer.stored(), self.parts()),
                step,
                opt@.weights(),
            ),
    {
        let mut map: WeightMap = self.build_weight_map();
        map.insert_scalar("meta.step", step as u64);
        map.merge("optimizer", opt.to_weight_map());
        map
    }

    /// The model, the optimizer and the step that a checkpoint of a training run
    /// holds.
    pub fn restore_training(map: &WeightMap) -> (r: Result<(Self, AdamWState, usize), DataError>)
        requires
            map.wf(),
            buildable(map@),
            !map@.scoped("optimizer"@).vectors.contains_key("moments.data"@),
        ensures
            match r {
                Ok((m, opt, step)) => {
                    &&& ModelMeta::of_weights(map@) == Ok::<ModelMeta, Fault>(m.meta)
                    &&& tokenizer::restored(map@.scoped("tokenizer"@), m.tokenizer)
                    &&& TrainedParts::of_weights(
                        m.meta,
                        m.tokenizer.size() as usize,
                        m.tokenizer.pad(),
                        map@,
                    ) == Ok::<TrainedParts, Fault>(m.parts())
                    &&& map@.scalars.contains_key("meta.step"@)
                    &&& step == map@.scalars["meta.step"@] as usize
                    &&& opt.wf()
                    &&& AdamWModel::of_weights(map@.scoped("optimizer"@)) == Ok::<
                        AdamWModel,
                        Fault,
                    >(opt@)
                },
                Err(e) => resume_error(map@, e),
            },
    {
        let model: ModelWeights = match ModelWeights::restore_model(map) {
            Ok(model) => model,
            Err(e) => {
                proof {
                    lemma_not_restorable(map@, e);
                }
                return Err(e);
            },
        };
        assert(restorable(map@)) by {
            assert(model.tokenizer.size() >= 0);
        }
        let step: u64 = map.get_scalar("meta.step")?;
        let opt: AdamWState = AdamWState::from_weight_map(&map.scoped("optimizer"))?;
        Ok((model, opt, step as usize))
    }
}

/// The checkpoint of a training run holds the model as the model's own checkpoint
/// does, and beside it the step and the optimizer.
pub proof fn law_training_run_comes_back(
    meta: ModelMeta,
    tokenizer: Weights,
    parts: TrainedParts,
    vocab_size: usize,
    pad_id: usize,
    step: usize,
    optimizer: Weights,
)
    requires
        parts.fits(meta, vocab_size, pad_id),
    ensures
        ({
            let w = training_weights(model_weights(meta, tokenizer, parts), step, optimizer);
            &&& ModelMeta::of_weights(w) == Ok::<ModelMeta, Fault>(meta)
            &&& w.scoped("tokenizer"@) == tokenizer
            &&& TrainedParts::of_weights(meta, vocab_size, pad_id, w) == Ok::<TrainedParts, Fault>(
                parts,
            )
            &&& w.scalars.contains_key("meta.step"@)
            &&& w.scalars["meta.step"@] as usize == step
            &&& w.scoped("optimizer"@) == optimizer
        }),
{
    let model = model_weights(meta, tokenizer, parts);
    let w = training_weights(model, step, optimizer);
    assert(ModelMeta::of_weights(meta.weights()) == Ok::<ModelMeta, Fault>(meta)) by {
        law_meta_comes_back(meta);
    }
    assert(ModelMeta::of_weights(model) == ModelMeta::of_weights(meta.weights()) && model.scoped(
        "tokenizer"@,
    ) == tokenizer && model.scoped("embedding"@) == parts.embedding.weights() && model.scoped(
        "transformer"@,
    ) == parts.transformer.weights() && model.scoped("output_head"@)
        == parts.output_head.weights()) by {
        lemma_model_parts(meta, tokenizer, parts);
    }
    lemma_beside_the_model(model, step, optimizer);
    assert(model.scoped("optimizer"@) == Weights::empty()) by {
        lemma_no_optimizer(meta, tokenizer, parts);
    }
    lemma_optimizer_is_found(model, step, optimizer);
    lemma_trained_parts_come_back(parts, meta, vocab_size, pad_id, w);
}

/// The step and the optimizer change nothing in the scopes of the model.
proof fn lemma_beside_the_model(model: Weights, step: usize, optimizer: Weights)
    ensures
        ({
            let w = training_weights(model, step, optimizer);
            &&& ModelMeta::of_weights(w) == ModelMeta::of_weights(model)
            &&& w.scoped("tokenizer"@) == model.scoped("tokenizer"@)
            &&& w.scoped("embedding"@) == model.scoped("embedding"@)
            &&& w.scoped("transformer"@) == model.scoped("transformer"@)
            &&& w.scoped("output_head"@) == model.scoped("output_head"@)
        }),
{
    lemma_model_scopes();
    let p = model_scopes();
    let record = Record::Scalar("meta.step"@, step as u64);
    let with_step = model.with(record);
    let w = with_step.merged("optimizer"@, optimizer);
    lemma_meta_outside(p.0);
    lemma_meta_outside(p.1);
    lemma_meta_outside(p.2);
    lemma_meta_outside(p.3);
    scopes::lemma_scope_with(model, p.0, record);
    scopes::lemma_scope_with(model, p.1, record);
    scopes::lemma_scope_with(model, p.2, record);
    scopes::lemma_scope_with(model, p.3, record);
    scopes::law_scopes_do_not_mix(with_step, p.0, "optimizer"@, optimizer);
    scopes::law_scopes_do_not_mix(with_step, p.1, "optimizer"@, optimizer);
    scopes::law_scopes_do_not_mix(with_step, p.2, "optimizer"@, optimizer);
    scopes::law_scopes_do_not_mix(with_step, p.3, "optimizer"@, optimizer);
    lemma_meta_outside("optimizer"@);
    lemma_step_is_apart(model, step);
    scopes::lemma_scalar_stays(with_step, "optimizer"@, optimizer, "meta.d_model"@);
    scopes::lemma_scalar_stays(with_step, "optimizer"@, optimizer, "meta.n_heads"@);
    scopes::lemma_scalar_stays(with_step, "optimizer"@, optimizer, "meta.d_ff"@);
    scopes::lemma_scalar_stays(with_step, "optimizer"@, optimizer, "meta.n_layers"@);
    scopes::lemma_scalar_stays(with_step, "optimizer"@, optimizer, "meta.max_len"@);
    scopes::lemma_scalar_stays(with_step, "optimizer"@, optimizer, "meta.dropout_p"@);
    scopes::lemma_scalar_stays(with_step, "optimizer"@, optimizer, "meta.normalization_kind"@);
    scopes::lemma_scalar_stays(with_step, "optimizer"@, optimizer, "meta.feed_forward_kind"@);
    scopes::lemma_scalar_stays(with_step, "optimizer"@, optimizer, "meta.positional_encoding_kind"@);
    lemma_same_meta(w, with_step);
}

/// The step is no number of the model.
proof fn lemma_step_is_apart(model: Weights, step: usize)
    ensures
        ModelMeta::of_weights(model.with(Record::Scalar("meta.step"@, step as u64)))
            == ModelMeta::of_weights(model),
{
    reveal_strlit("meta.step");
    assert("meta.step"@.len() == 9);
    reveal_strlit("meta.d_model");
    assert("meta.d_model"@.len() == 12);
    reveal_strlit("meta.n_heads");
    assert("meta.n_heads"@.len() == 12);
    reveal_strlit("meta.d_ff");
    assert("meta.d_ff"@.len() == 9);
    assert("meta.step"@[5] != "meta.d_ff"@[5]);
    reveal_strlit("meta.n_layers");
    assert("meta.n_layers"@.len() == 13);
    reveal_strlit("meta.max_len");
    assert("meta.max_len"@.len() == 12);
    reveal_strlit("meta.dropout_p");
    assert("meta.dropout_p"@.len() == 14);
    reveal_strlit("meta.normalization_kind");
    assert("meta.normalization_kind"@.len() == 23);
    reveal_strlit("meta.feed_forward_kind");
    assert("meta.feed_forward_kind"@.len() == 22);
    reveal_strlit("meta.positional_encoding_kind");
    assert("meta.positional_encoding_kind"@.len() == 29);
    lemma_same_meta(model.with(Record::Scalar("meta.step"@, step as u64)), model);
}

/// A model's own checkpoint holds no optimizer.
proof fn lemma_no_optimizer(meta: ModelMeta, tokenizer: Weights, parts: TrainedParts)
    ensures
        model_weights(meta, tokenizer, parts).scoped("optimizer"@) == Weights::empty(),
{
    lemma_model_scopes();
    let p = model_scopes();
    let opt = "optimizer"@;
    lemma_meta_scope(meta, opt);
    scopes::lemma_apart_is_symmetric(p.0, opt);
    scopes::lemma_apart_is_symmetric(p.1, opt);
    scopes::lemma_apart_is_symmetric(p.2, opt);
    scopes::lemma_apart_is_symmetric(p.3, opt);
    let w0 = meta.weights();
    let w1 = w0.merged(p.0, tokenizer);
    let w2 = w1.merged(p.1, parts.embedding.weights());
    let w3 = w2.merged(p.2, parts.transformer.weights());
    scopes::law_scopes_do_not_mix(w0, opt, p.0, tokenizer);
    scopes::law_scopes_do_not_mix(w1, opt, p.1, parts.embedding.weights());
    scopes::law_scopes_do_not_mix(w2, opt, p.2, parts.transformer.weights());
    scopes::law_scopes_do_not_mix(w3, opt, p.3, parts.output_head.weights());
}

/// The step and the optimizer are found again.
proof fn lemma_optimizer_is_found(model: Weights, step: usize, optimizer: Weights)
    requires
        model.scoped("optimizer"@) == Weights::empty(),
    ensures
        ({
            let w = training_weights(model, step, optimizer);
            &&& w.scalars.contains_key("meta.step"@)
            &&& w.scalars["meta.step"@] as usize == step
            &&& w.scoped("optimizer"@) == optimizer
        }),
{
    lemma_model_scopes();
    lemma_meta_outside("optimizer"@);
    let record = Record::Scalar("meta.step"@, step as u64);
    scopes::lemma_scope_with(model, "optimizer"@, record);
    scopes::lemma_scope_is_part(model.with(record), "optimizer"@, optimizer);
    scopes::lemma_scalar_stays(model.with(record), "optimizer"@, optimizer, "meta.step"@);
}

} // verus!
