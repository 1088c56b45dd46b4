//! Under which names a checkpoint holds what, and what it has to hold.

use vstd::prelude::*;

use crate::adam_w::{self, AdamWModel};
use crate::bpe_tokenizer::BpeModel;
use crate::char_bpe_tokenizer::{self, CharBpeModel};
use crate::char_tokenizer::CharModel;
use crate::checkpoint::Weights;
use crate::embedding::EmbeddingModel;
use crate::error::{DataError, Family, Fault, Part};
use crate::feed_forward::{FeedForwardKind, FeedForwardModel, GeluModel, SwiGluModel};
use crate::language_model::{self, ModelMeta, TrainedParts};
use crate::multi_head_attention::{AttentionModel, HeadShape};
use crate::normalization::{NormModel, NormalizationKind};
use crate::output_head::OutputHeadModel;
use crate::positional_encoding::PositionalEncodingKind;
use crate::stored;
use crate::table;
use crate::text;
use crate::tokenizer::{self, TokenizerKind};
use crate::transformer::{self, BlockModel, LayerConfig, TransformerModel};

verus! {

/// `w` holds the number `v` under the name.
pub open spec fn has_scalar(w: Weights, name: Seq<char>, v: int) -> bool {
    w.scalars.contains_key(name) && w.scalars[name] == v
}

/// `w` holds the vector under the name.
pub open spec fn has_vector(w: Weights, name: Seq<char>, v: Seq<u32>) -> bool {
    w.vectors.contains_key(name) && w.vectors[name] == v
}

/// `w` holds the matrix under the name.
pub open spec fn has_matrix(w: Weights, name: Seq<char>, m: Seq<Seq<u32>>) -> bool {
    w.matrices.contains_key(name) && w.matrices[name] == m
}

/// `w` holds the texts under the name.
pub open spec fn has_strings(w: Weights, name: Seq<char>, l: Seq<Seq<char>>) -> bool {
    w.strings.contains_key(name) && w.strings[name] == l
}

/// The codes of all kinds count from one.
pub proof fn law_codes_count_from_one(
    t: TokenizerKind,
    n: NormalizationKind,
    f: FeedForwardKind,
    p: PositionalEncodingKind,
)
    ensures
        t.code() == 1 <==> t == TokenizerKind::Bpe,
        t.code() == 2 <==> t == TokenizerKind::Char,
        t.code() == 3 <==> t == TokenizerKind::CharBpe,
        n.code() == 1 <==> n == NormalizationKind::Layer,
        n.code() == 2 <==> n == NormalizationKind::Rms,
        f.code() == 1 <==> f == FeedForwardKind::Gelu,
        f.code() == 2 <==> f == FeedForwardKind::SwiGlu,
        p.code() == 1 <==> p == PositionalEncodingKind::Sinusoidal,
        p.code() == 2 <==> p == PositionalEncodingKind::Rope,
{
}

/// Under which names a network with GELU is stored.
pub proof fn law_gelu_networks_are_stored_by_name(m: GeluModel)
    ensures
        has_scalar(m.weights(), "d_model"@, m.d_model as int),
        has_scalar(m.weights(), "d_ff"@, m.d_ff as int),
        has_vector(m.weights(), "b1"@, m.b1),
        has_vector(m.weights(), "b2"@, m.b2),
        has_matrix(m.weights(), "w1"@, m.w1),
        has_matrix(m.weights(), "w2"@, m.w2),
{
    reveal_strlit("d_model");
    reveal_strlit("d_ff");
    assert("d_model"@.len() == 7);
    assert("d_ff"@.len() == 4);
    reveal_strlit("b1");
    reveal_strlit("b2");
    assert("b1"@.len() == 2);
    assert("b2"@.len() == 2);
    assert("b1"@[1] != "b2"@[1]);
    reveal_strlit("w1");
    reveal_strlit("w2");
    assert("w1"@.len() == 2);
    assert("w2"@.len() == 2);
    assert("w1"@[1] != "w2"@[1]);
}

/// Under which names a gated network is stored.
pub proof fn law_gated_networks_are_stored_by_name(m: SwiGluModel)
    ensures
        has_scalar(m.weights(), "d_model"@, m.d_model as int),
        has_scalar(m.weights(), "d_ff_g"@, m.d_ff_g as int),
        has_matrix(m.weights(), "w_gate"@, m.w_gate),
        has_matrix(m.weights(), "w_up"@, m.w_up),
        has_matrix(m.weights(), "w_down"@, m.w_down),
{
    reveal_strlit("d_model");
    reveal_strlit("d_ff_g");
    assert("d_model"@.len() == 7);
    assert("d_ff_g"@.len() == 6);
    reveal_strlit("w_gate");
    reveal_strlit("w_up");
    reveal_strlit("w_down");
    assert("w_gate"@.len() == 6);
    assert("w_up"@.len() == 4);
    assert("w_down"@.len() == 6);
    assert("w_gate"@[2] != "w_down"@[2]);
}

/// Under which names an attention layer is stored.
pub proof fn law_attention_is_stored_by_name(m: AttentionModel)
    ensures
        has_scalar(m.weights(), "n_heads"@, m.shape.n_heads as int),
        has_scalar(m.weights(), "n_kv_heads"@, m.shape.n_kv_heads as int),
        has_scalar(m.weights(), "d_model"@, m.shape.d_model as int),
        has_scalar(m.weights(), "d_kv_model"@, m.shape.d_kv_model as int),
        has_scalar(m.weights(), "d_head"@, m.shape.d_head as int),
        has_matrix(m.weights(), "w_q"@, m.w_q),
        has_matrix(m.weights(), "w_k"@, m.w_k),
        has_matrix(m.weights(), "w_v"@, m.w_v),
        has_matrix(m.weights(), "w_o"@, m.w_o),
{
    reveal_strlit("n_heads");
    reveal_strlit("n_kv_heads");
    reveal_strlit("d_model");
    reveal_strlit("d_kv_model");
    reveal_strlit("d_head");
    assert("n_heads"@.len() == 7);
    assert("n_kv_heads"@.len() == 10);
    assert("d_model"@.len() == 7);
    assert("d_kv_model"@.len() == 10);
    assert("d_head"@.len() == 6);
    assert("n_heads"@[0] != "d_model"@[0]);
    assert("n_kv_heads"@[0] != "d_kv_model"@[0]);
    reveal_strlit("w_q");
    reveal_strlit("w_k");
    reveal_strlit("w_v");
    reveal_strlit("w_o");
    assert("w_q"@.len() == 3);
    assert("w_k"@.len() == 3);
    assert("w_v"@.len() == 3);
    assert("w_o"@.len() == 3);
    assert("w_q"@[2] != "w_k"@[2]);
    assert("w_q"@[2] != "w_v"@[2]);
    assert("w_q"@[2] != "w_o"@[2]);
    assert("w_k"@[2] != "w_v"@[2]);
    assert("w_k"@[2] != "w_o"@[2]);
    assert("w_v"@[2] != "w_o"@[2]);
}

/// Under which names an output head is stored.
pub proof fn law_output_heads_are_stored_by_name(m: OutputHeadModel)
    ensures
        has_scalar(m.weights(), "vocab_size"@, m.vocab_size as int),
        has_scalar(m.weights(), "d_model"@, m.d_model as int),
        has_matrix(m.weights(), "w"@, m.w),
{
    reveal_strlit("vocab_size");
    reveal_strlit("d_model");
    assert("vocab_size"@.len() == 10);
    assert("d_model"@.len() == 7);
    reveal_strlit("w");
    assert("w"@.len() == 1);
}

/// Under which names an embedding is stored; whether a token is padding is stored
/// as one or zero.
pub proof fn law_embeddings_are_stored_by_name(m: EmbeddingModel)
    ensures
        has_scalar(m.weights(), "vocab_size"@, m.vocab_size as int),
        has_scalar(m.weights(), "d_model"@, m.d_model as int),
        m.pad_id is Some ==> has_scalar(m.weights(), "has_pad_id"@, 1) && has_scalar(
            m.weights(),
            "pad_id"@,
            m.pad_id->Some_0 as int,
        ),
        m.pad_id is None ==> has_scalar(m.weights(), "has_pad_id"@, 0) && has_scalar(
            m.weights(),
            "pad_id"@,
            0,
        ),
        has_matrix(m.weights(), "weight"@, m.weight),
{
    reveal_strlit("vocab_size");
    reveal_strlit("d_model");
    reveal_strlit("has_pad_id");
    reveal_strlit("pad_id");
    assert("vocab_size"@.len() == 10);
    assert("d_model"@.len() == 7);
    assert("has_pad_id"@.len() == 10);
    assert("pad_id"@.len() == 6);
    assert("vocab_size"@[0] != "has_pad_id"@[0]);
}

/// Under which names a normalization is stored.
pub proof fn law_normalizations_are_stored_by_name(m: NormModel)
    ensures
        m is Layer ==> has_vector(m.weights(), "gamma"@, m->gamma) && has_vector(
            m.weights(),
            "beta"@,
            m->beta,
        ),
        m is Rms ==> has_vector(m.weights(), "gain"@, m->gain),
{
    reveal_strlit("gamma");
    reveal_strlit("beta");
    assert("gamma"@.len() == 5);
    assert("beta"@.len() == 4);
}

/// Under which names the numbers of a model are stored.
pub proof fn law_numbers_are_stored_by_name(m: ModelMeta)
    ensures
        has_scalar(m.weights(), "meta.d_model"@, m.d_model as int),
        has_scalar(m.weights(), "meta.n_heads"@, m.n_heads as int),
        has_scalar(m.weights(), "meta.d_ff"@, m.d_ff as int),
        has_scalar(m.weights(), "meta.n_layers"@, m.n_layers as int),
        has_scalar(m.weights(), "meta.max_len"@, m.max_len as int),
        has_scalar(m.weights(), "meta.dropout_p"@, m.dropout_bits as int),
        has_scalar(m.weights(), "meta.normalization_kind"@, m.normalization_kind.code() as int),
        has_scalar(m.weights(), "meta.feed_forward_kind"@, m.feed_forward_kind.code() as int),
        has_scalar(m.weights(), "meta.positional_encoding_kind"@, m.positional_encoding_kind.code() as int),
{
    reveal_strlit("meta.d_model");
    reveal_strlit("meta.n_heads");
    reveal_strlit("meta.d_ff");
    reveal_strlit("meta.n_layers");
    reveal_strlit("meta.max_len");
    reveal_strlit("meta.dropout_p");
    reveal_strlit("meta.normalization_kind");
    reveal_strlit("meta.feed_forward_kind");
    reveal_strlit("meta.positional_encoding_kind");
    assert("meta.d_model"@.len() == 12);
    assert("meta.n_heads"@.len() == 12);
    assert("meta.d_ff"@.len() == 9);
    assert("meta.n_layers"@.len() == 13);
    assert("meta.max_len"@.len() == 12);
    assert("meta.dropout_p"@.len() == 14);
    assert("meta.normalization_kind"@.len() == 23);
    assert("meta.feed_forward_kind"@.len() == 22);
    assert("meta.positional_encoding_kind"@.len() == 29);
    assert("meta.d_model"@[5] != "meta.n_heads"@[5]);
    assert("meta.d_model"@[5] != "meta.max_len"@[5]);
    assert("meta.n_heads"@[5] != "meta.max_len"@[5]);
}

/// A model has no dropout, layer normalization, GELU and sinusoids unless the
/// checkpoint names something else that there is.
pub proof fn law_old_checkpoints_have_defaults(w: Weights)
    requires
        ModelMeta::of_weights(w) is Ok,
    ensures
        ({
            let m = ModelMeta::of_weights(w)->Ok_0;
            &&& !w.scalars.contains_key("meta.dropout_p"@) ==> m.dropout_bits == 0
            &&& !has_scalar(w, "meta.normalization_kind"@, 2) <==> m.normalization_kind
                == NormalizationKind::Layer
            &&& !has_scalar(w, "meta.feed_forward_kind"@, 2) <==> m.feed_forward_kind
                == FeedForwardKind::Gelu
            &&& !has_scalar(w, "meta.positional_encoding_kind"@, 2) <==> m.positional_encoding_kind
                == PositionalEncodingKind::Sinusoidal
            &&& forall|bits: u32| #![trigger bits as u64]
                has_scalar(w, "meta.dropout_p"@, bits as u64 as int) ==> m.dropout_bits == bits
        }),
{
}

/// A model has as many key heads as query heads.
pub proof fn law_every_layer_is_alike(m: ModelMeta)
    ensures
        m.layers().n_kv_heads == m.layers().n_heads,
        m.layers().n_heads == m.n_heads,
        m.layers().d_model == m.d_model,
        m.layers().d_ff == m.d_ff,
        m.layers().normalization_kind == m.normalization_kind,
        m.layers().feed_forward_kind == m.feed_forward_kind,
{
}

/// An attention layer is loaded exactly where its five numbers and its four
/// matrices are stored and the numbers are those of the layer asked for.
pub proof fn law_attention_is_loaded_where_it_fits(s: HeadShape, w: Weights)
    ensures
        ({
            let r = AttentionModel::of_weights(s, w);
            let numbers = w.scalars.contains_key("n_heads"@) && w.scalars.contains_key(
                "n_kv_heads"@,
            ) && w.scalars.contains_key("d_model"@) && w.scalars.contains_key("d_kv_model"@)
                && w.scalars.contains_key("d_head"@);
            let fitting = w.scalars["n_heads"@] as usize == s.n_heads && w.scalars[
            "n_kv_heads"@] as usize == s.n_kv_heads && w.scalars["d_model"@] as usize == s.d_model
                && w.scalars["d_kv_model"@] as usize == s.d_kv_model && w.scalars[
            "d_head"@] as usize == s.d_head;
            &&& r is Ok <==> numbers && fitting && w.matrices.contains_key("w_q"@)
                && w.matrices.contains_key("w_k"@) && w.matrices.contains_key("w_v"@)
                && w.matrices.contains_key("w_o"@)
            &&& r is Ok ==> r->Ok_0.shape == s && r->Ok_0.w_q == w.matrices["w_q"@]
                && r->Ok_0.w_k == w.matrices["w_k"@] && r->Ok_0.w_v == w.matrices["w_v"@]
                && r->Ok_0.w_o == w.matrices["w_o"@]
            &&& r is Err && r->Err_0 is Mismatch ==> numbers && !fitting && r->Err_0
                == Fault::Mismatch(Part::Attention)
            &&& r is Err && !(r->Err_0 is Mismatch) ==> r->Err_0 is MissingKey && (
            !w.scalars.contains_key(r->Err_0->MissingKey_0) || !w.matrices.contains_key(
                r->Err_0->MissingKey_0,
            ))
        }),
{
}

/// A network with GELU is loaded exactly where its two numbers, its two matrices and
/// its two vectors are stored and the numbers are those asked for.
pub proof fn law_gelu_networks_are_loaded_where_they_fit(d_model: usize, d_ff: usize, w: Weights)
    ensures
        ({
            let r = GeluModel::of_weights(d_model, d_ff, w);
            let numbers = w.scalars.contains_key("d_model"@) && w.scalars.contains_key("d_ff"@);
            let fitting = w.scalars["d_model"@] as usize == d_model && w.scalars["d_ff"@] as usize
                == d_ff;
            &&& r is Ok <==> numbers && fitting && w.matrices.contains_key("w1"@)
                && w.vectors.contains_key("b1"@) && w.matrices.contains_key("w2"@)
                && w.vectors.contains_key("b2"@)
            &&& r is Ok ==> r->Ok_0.d_model == d_model && r->Ok_0.d_ff == d_ff && r->Ok_0.w1
                == w.matrices["w1"@] && r->Ok_0.b1 == w.vectors["b1"@] && r->Ok_0.w2
                == w.matrices["w2"@] && r->Ok_0.b2 == w.vectors["b2"@]
            &&& r is Err ==> (r->Err_0 == Fault::Mismatch(Part::FeedForward) <==> numbers
                && !fitting)
            &&& r is Err && r->Err_0 is Mismatch ==> numbers && !fitting
        }),
{
}

/// A gated network is loaded exactly where its two numbers and its three matrices are
/// stored and the numbers are those asked for.
pub proof fn law_gated_networks_are_loaded_where_they_fit(
    d_model: usize,
    d_ff_g: usize,
    w: Weights,
)
    ensures
        ({
            let r = SwiGluModel::of_weights(d_model, d_ff_g, w);
            let numbers = w.scalars.contains_key("d_model"@) && w.scalars.contains_key("d_ff_g"@);
            let fitting = w.scalars["d_model"@] as usize == d_model && w.scalars[
            "d_ff_g"@] as usize == d_ff_g;
            &&& r is Ok <==> numbers && fitting && w.matrices.contains_key("w_gate"@)
                && w.matrices.contains_key("w_up"@) && w.matrices.contains_key("w_down"@)
            &&& r is Ok ==> r->Ok_0.d_model == d_model && r->Ok_0.d_ff_g == d_ff_g
                && r->Ok_0.w_gate == w.matrices["w_gate"@] && r->Ok_0.w_up == w.matrices["w_up"@]
                && r->Ok_0.w_down == w.matrices["w_down"@]
            &&& r is Err ==> (r->Err_0 == Fault::Mismatch(Part::FeedForward) <==> numbers
                && !fitting)
            &&& r is Err && r->Err_0 is Mismatch ==> numbers && !fitting
        }),
{
}

/// An output head is loaded exactly where its two numbers and its matrix are stored
/// and the numbers are those asked for.
pub proof fn law_output_heads_are_loaded_where_they_fit(
    vocab_size: usize,
    d_model: usize,
    w: Weights,
)
    ensures
        ({
            let r = OutputHeadModel::of_weights(vocab_size, d_model, w);
            let numbers = w.scalars.contains_key("vocab_size"@) && w.scalars.contains_key(
                "d_model"@,
            );
            let fitting = w.scalars["vocab_size"@] as usize == vocab_size && w.scalars[
            "d_model"@] as usize == d_model;
            &&& r is Ok <==> numbers && fitting && w.matrices.contains_key("w"@)
            &&& r is Ok ==> r->Ok_0.vocab_size == vocab_size && r->Ok_0.d_model == d_model
                && r->Ok_0.w == w.matrices["w"@]
            &&& r is Err ==> (r->Err_0 == Fault::Mismatch(Part::OutputHead) <==> numbers
                && !fitting)
            &&& r is Err && r->Err_0 is Mismatch ==> numbers && !fitting
        }),
{
}

/// An embedding is loaded exactly where its numbers and its matrix are stored, and
/// size, width and padding are those asked for. Which token is padding is looked at
/// only where there is one.
pub proof fn law_embeddings_are_loaded_where_they_fit(
    vocab_size: usize,
    d_model: usize,
    pad_id: Option<usize>,
    w: Weights,
)
    ensures
        ({
            let r = EmbeddingModel::of_weights(vocab_size, d_model, pad_id, w);
            let padded = w.scalars["has_pad_id"@] == 1;
            let numbers = w.scalars.contains_key("vocab_size"@) && w.scalars.contains_key(
                "d_model"@,
            ) && w.scalars.contains_key("has_pad_id"@) && (padded ==> w.scalars.contains_key(
                "pad_id"@,
            ));
            let fitting = w.scalars["vocab_size"@] as usize == vocab_size && w.scalars[
            "d_model"@] as usize == d_model && (pad_id is Some <==> padded) && (pad_id is Some
                ==> pad_id->Some_0 == w.scalars["pad_id"@] as usize);
            &&& r is Ok <==> numbers && fitting && w.matrices.contains_key("weight"@)
            &&& r is Ok ==> r->Ok_0.vocab_size == vocab_size && r->Ok_0.d_model == d_model
                && r->Ok_0.pad_id == pad_id && r->Ok_0.weight == w.matrices["weight"@]
            &&& r is Err ==> (r->Err_0 == Fault::Mismatch(Part::Embedding) <==> numbers
                && !fitting)
            &&& r is Err && r->Err_0 is Mismatch ==> numbers && !fitting
        }),
{
}

/// A normalization is loaded exactly where its vectors are stored and as long as
/// asked for.
pub proof fn law_normalizations_are_loaded_where_they_fit(d_model: usize, w: Weights)
    ensures
        ({
            let r = NormModel::of_weights(NormalizationKind::Layer, d_model, w);
            &&& r is Ok <==> w.vectors.contains_key("gamma"@) && w.vectors.contains_key("beta"@)
                && w.vectors["gamma"@].len() == d_model && w.vectors["beta"@].len() == d_model
            &&& r is Ok ==> r->Ok_0 == (NormModel::Layer {
                gamma: w.vectors["gamma"@],
                beta: w.vectors["beta"@],
            })
            &&& r is Err && w.vectors.contains_key("gamma"@) && w.vectors.contains_key("beta"@)
                ==> r->Err_0 == Fault::Mismatch(Part::Normalization)
        }),
        ({
            let r = NormModel::of_weights(NormalizationKind::Rms, d_model, w);
            &&& r is Ok <==> w.vectors.contains_key("gain"@) && w.vectors["gain"@].len() == d_model
            &&& r is Ok ==> r->Ok_0 == (NormModel::Rms { gain: w.vectors["gain"@] })
            &&& r is Err && w.vectors.contains_key("gain"@) ==> r->Err_0 == Fault::Mismatch(
                Part::Normalization,
            )
        }),
{
}

/// The parts of a block stand in scopes of their own.
pub proof fn law_blocks_are_stored_by_part(m: BlockModel)
    ensures
        m.weights().scoped("mha"@) == m.mha.weights(),
        m.weights().scoped("norm1"@) == m.norm1.weights(),
        m.weights().scoped("ffn"@) == m.ffn.weights(),
        m.weights().scoped("norm2"@) == m.norm2.weights(),
{
    transformer::lemma_block_parts(m);
}

/// The blocks of a transformer stand in scopes that count from zero, beside the
/// number of the blocks and the normalization behind them.
pub proof fn law_transformers_are_stored_by_block(m: TransformerModel, i: int)
    requires
        0 <= i < m.blocks.len() <= u64::MAX,
    ensures
        has_scalar(m.weights(), "n_layers"@, m.blocks.len() as int),
        m.weights().scoped("final_norm"@) == m.final_norm.weights(),
        m.weights().scoped("blocks."@ + text::decimal(i as nat)) == m.blocks[i].weights(),
{
    transformer::lemma_transformer_parts(m);
    assert(transformer::block_scope(i) == "blocks."@ + text::decimal(i as nat));
}

/// The parts of a model stand in scopes of their own.
pub proof fn law_models_are_stored_by_part(
    meta: ModelMeta,
    tokenizer: Weights,
    parts: TrainedParts,
)
    ensures
        ({
            let w = language_model::model_weights(meta, tokenizer, parts);
            &&& w.scoped("tokenizer"@) == tokenizer
            &&& w.scoped("embedding"@) == parts.embedding.weights()
            &&& w.scoped("transformer"@) == parts.transformer.weights()
            &&& w.scoped("output_head"@) == parts.output_head.weights()
        }),
{
    language_model::lemma_model_parts(meta, tokenizer, parts);
}

/// Under which names an optimizer is stored: its settings under their names, and
/// for each parameter its value and its two moments.
pub proof fn law_optimizers_are_stored_by_name(s: AdamWModel, id: Seq<char>)
    requires
        s.listable(),
    ensures
        has_scalar(s.weights(), "lr"@, s.lr as int),
        has_scalar(s.weights(), "beta1"@, s.beta1 as int),
        has_scalar(s.weights(), "beta2"@, s.beta2 as int),
        has_scalar(s.weights(), "eps"@, s.eps as int),
        has_scalar(s.weights(), "wd"@, s.wd as int),
        has_scalar(s.weights(), "step_count"@, s.step_count as int),
        s.moments.contains_key(id) ==> {
            &&& has_vector(s.weights(), "moments."@ + id + ".data"@, s.moments[id].data)
            &&& has_vector(s.weights(), "moments."@ + id + ".m"@, s.moments[id].m)
            &&& has_vector(s.weights(), "moments."@ + id + ".v"@, s.moments[id].v)
        },
{
    let l = table::ordered(s.moments);
    reveal_strlit("lr");
    reveal_strlit("beta1");
    reveal_strlit("beta2");
    reveal_strlit("eps");
    reveal_strlit("wd");
    reveal_strlit("step_count");
    assert("lr"@.len() == 2);
    assert("beta1"@.len() == 5);
    assert("beta2"@.len() == 5);
    assert("eps"@.len() == 3);
    assert("wd"@.len() == 2);
    assert("step_count"@.len() == 10);
    assert("lr"@[0] != "wd"@[0]);
    assert("beta1"@[4] != "beta2"@[4]);
    adam_w::lemma_with_moments(s.settings(), l);
    if s.moments.contains_key(id) {
        table::lemma_map_of(l);
        let i = choose|i: int| 0 <= i < l.len() && (#[trigger] l[i]).0 == id;
        assert(l[i].1 == s.moments[id]);
        reveal_strlit(".");
        reveal_strlit("data");
        reveal_strlit("m");
        reveal_strlit("v");
        reveal_strlit(".data");
        reveal_strlit(".m");
        reveal_strlit(".v");
        assert("."@ + "data"@ =~= ".data"@);
        assert("."@ + "m"@ =~= ".m"@);
        assert("."@ + "v"@ =~= ".v"@);
        assert("moments."@ + id + ".data"@ =~= adam_w::moment_key(id, "data"@));
        assert("moments."@ + id + ".m"@ =~= adam_w::moment_key(id, "m"@));
        assert("moments."@ + id + ".v"@ =~= adam_w::moment_key(id, "v"@));
    }
}

/// Merges are stored as one list: the left and the right part of each, in their
/// order.
pub proof fn law_merges_are_stored_in_a_row(list: Seq<(Seq<char>, Seq<char>)>, i: int)
    requires
        0 <= i < list.len(),
    ensures
        stored::flattened(list).len() == 2 * list.len(),
        stored::flattened(list)[2 * i] == list[i].0,
        stored::flattened(list)[2 * i + 1] == list[i].1,
{
    assert((2 * i) % 2 == 0 && (2 * i) / 2 == i);
    assert((2 * i + 1) % 2 == 1 && (2 * i + 1) / 2 == i);
}

/// Under which names tokenizers are stored. Only a byte-level tokenizer does not say
/// of which kind it is.
pub proof fn law_tokenizers_are_stored_by_name(b: BpeModel, c: CharModel, s: CharBpeModel)
    ensures
        has_strings(b.weights(), "id_to_token"@, b.tokens),
        has_strings(b.weights(), "merges"@, stored::flattened(b.merges)),
        has_scalar(b.weights(), "unk_id"@, b.unk_id as int),
        !b.weights().scalars.contains_key("kind"@),
        has_scalar(c.weights(), "kind"@, 2),
        c.weights().strings.contains_key("id_to_char"@),
        c.weights().strings["id_to_char"@].len() == c.chars.len(),
        forall|i: int|
            0 <= i < c.chars.len() ==> #[trigger] c.weights().strings["id_to_char"@][i]
                == if c.chars[i] == '\0' {
                Seq::<char>::empty()
            } else {
                Seq::<char>::empty().push(c.chars[i])
            },
        has_scalar(s.weights(), "kind"@, 3),
        has_strings(s.weights(), "id_to_token"@, s.tokens),
        has_scalar(s.weights(), "unk_id"@, s.unk_id as int),
        has_strings(s.weights(), "merges"@, stored::flattened(s.merges)),
        has_strings(s.weights(), "special_tokens"@, s.special_tokens),
{
    reveal_strlit("kind");
    reveal_strlit("unk_id");
    assert("kind"@.len() == 4);
    assert("unk_id"@.len() == 6);
    reveal_strlit("id_to_token");
    reveal_strlit("merges");
    reveal_strlit("special_tokens");
    assert("id_to_token"@.len() == 11);
    assert("merges"@.len() == 6);
    assert("special_tokens"@.len() == 14);
}

/// A checkpoint that does not say of which kind its tokenizer is holds a byte-level
/// one, and one without special tokens has the markers that are always there.
pub proof fn law_old_tokenizers_are_byte_level(w: Weights)
    ensures
        !w.scalars.contains_key("kind"@) ==> tokenizer::stored_code(w) == 1,
        w.scalars.contains_key("kind"@) ==> tokenizer::stored_code(w) == w.scalars["kind"@],
        !w.strings.contains_key("special_tokens"@) ==> CharBpeModel::of_weights(w).special_tokens
            == char_bpe_tokenizer::reserved(),
        w.strings.contains_key("special_tokens"@) ==> CharBpeModel::of_weights(w).special_tokens
            == w.strings["special_tokens"@],
{
}

/// Which tokenizers can be loaded: a subword tokenizer where its tokens, its unknown id
/// and its merges are stored, the merges in pairs; a character tokenizer where there is
/// a table with one character for each id but the first; and none of any other kind.
pub proof fn law_which_tokenizers_can_be_loaded(w: Weights)
    ensures
        ({
            let code = tokenizer::stored_code(w);
            let list = w.strings["id_to_char"@];
            &&& code == 1 || code == 3 ==> (tokenizer::loadable(w) <==> w.strings.contains_key(
                "id_to_token"@,
            ) && w.scalars.contains_key("unk_id"@) && w.strings.contains_key("merges"@) && exists|
                half: nat,
            |
                w.strings["merges"@].len() == #[trigger] (half * 2))
            &&& code == 2 ==> (tokenizer::loadable(w) <==> w.strings.contains_key("id_to_char"@)
                && list.len() > 0 && forall|i: int|
                0 < i < list.len() ==> (#[trigger] list[i]).len() == 1)
            &&& !(1 <= code <= 3) ==> !tokenizer::loadable(w)
        }),
{
    let n = w.strings["merges"@].len();
    if n % 2 == 0 {
        assert(n == (n / 2) * 2);
    }
}

/// Why a tokenizer cannot be loaded: its kind is unknown, something is not stored, the
/// merges are no pairs, or the first id without exactly one character.
pub proof fn law_why_a_tokenizer_cannot_be_loaded(w: Weights, e: DataError)
    requires
        tokenizer::load_error(w, e),
    ensures
        ({
            let code = tokenizer::stored_code(w);
            let list = w.strings["id_to_char"@];
            &&& !(1 <= code <= 3) ==> e == DataError::UnknownCode(Family::Tokenizer, code)
            &&& 1 <= code <= 3 ==> !(e is UnknownCode)
            &&& e is MissingKey ==> !w.strings.contains_key(e->MissingKey_0@)
                || !w.scalars.contains_key(e->MissingKey_0@)
            &&& e is OddMerges ==> (code == 1 || code == 3) && w.strings["merges"@].len() % 2 == 1
            &&& e is NoCharacters ==> code == 2 && list.len() == 0
            &&& e is EmptyCharacter ==> code == 2 && 0 < e->EmptyCharacter_0 < list.len()
                && list[e->EmptyCharacter_0 as int].len() == 0 && forall|i: int|
                0 < i < e->EmptyCharacter_0 ==> (#[trigger] list[i]).len() == 1
            &&& e is LongCharacter ==> code == 2 && 0 < e->LongCharacter_0 < list.len()
                && list[e->LongCharacter_0 as int].len() > 1 && forall|i: int|
                0 < i < e->LongCharacter_0 ==> (#[trigger] list[i]).len() == 1
        }),
{
}

/// What is loaded of a tokenizer is what is stored: its tokens in the order of their ids,
/// its unknown id, and as merge `i` the texts at the places `2 * i` and `2 * i + 1`.
pub proof fn law_tokenizers_are_what_is_stored(w: Weights, i: int)
    requires
        0 <= i,
        2 * i + 1 < w.strings["merges"@].len(),
    ensures
        BpeModel::of_weights(w).tokens == w.strings["id_to_token"@],
        BpeModel::of_weights(w).unk_id == w.scalars["unk_id"@] as usize,
        BpeModel::of_weights(w).merges.len() == w.strings["merges"@].len() / 2,
        BpeModel::of_weights(w).merges[i] == (
            w.strings["merges"@][2 * i],
            w.strings["merges"@][2 * i + 1],
        ),
        CharBpeModel::of_weights(w).tokens == w.strings["id_to_token"@],
        CharBpeModel::of_weights(w).unk_id == w.scalars["unk_id"@] as usize,
        CharBpeModel::of_weights(w).merges.len() == w.strings["merges"@].len() / 2,
        CharBpeModel::of_weights(w).merges[i] == (
            w.strings["merges"@][2 * i],
            w.strings["merges"@][2 * i + 1],
        ),
{
}

/// A block is loaded exactly where its four parts are, each from its scope.
pub proof fn law_blocks_are_loaded_by_part(c: LayerConfig, w: Weights)
    ensures
        ({
            let r = BlockModel::of_weights(c, w);
            let mha = AttentionModel::of_weights(c.shape(), w.scoped("mha"@));
            let norm1 = NormModel::of_weights(
                c.normalization_kind,
                c.d_model,
                w.scoped("norm1"@),
            );
            let ffn = FeedForwardModel::of_weights(
                c.feed_forward_kind,
                c.d_model,
                c.d_ff,
                w.scoped("ffn"@),
            );
            let norm2 = NormModel::of_weights(
                c.normalization_kind,
                c.d_model,
                w.scoped("norm2"@),
            );
            &&& r is Ok <==> mha is Ok && norm1 is Ok && ffn is Ok && norm2 is Ok
            &&& r is Ok ==> mha == Ok::<AttentionModel, Fault>(r->Ok_0.mha) && norm1 == Ok::<
                NormModel,
                Fault,
            >(r->Ok_0.norm1) && ffn == Ok::<FeedForwardModel, Fault>(r->Ok_0.ffn) && norm2 == Ok::<
                NormModel,
                Fault,
            >(r->Ok_0.norm2)
        }),
{
}

/// A transformer is loaded where the number of blocks is that asked for and all blocks
/// and the normalization behind them are loaded, each block from the scope with its
/// number.
pub proof fn law_transformers_are_loaded_by_block(
    c: LayerConfig,
    n: usize,
    w: Weights,
    i: int,
)
    requires
        TransformerModel::of_weights(c, n, w) is Ok,
        0 <= i < n,
    ensures
        ({
            let m = TransformerModel::of_weights(c, n, w)->Ok_0;
            &&& w.scalars.contains_key("n_layers"@)
            &&& w.scalars["n_layers"@] as usize == n
            &&& m.blocks.len() == n
            &&& BlockModel::of_weights(c, w.scoped("blocks."@ + text::decimal(i as nat))) == Ok::<
                BlockModel,
                Fault,
            >(m.blocks[i])
            &&& NormModel::of_weights(c.normalization_kind, c.d_model, w.scoped("final_norm"@))
                == Ok::<NormModel, Fault>(m.final_norm)
        }),
{
    lemma_blocks_are_loaded(c, n as nat, w, i);
}

proof fn lemma_blocks_are_loaded(c: LayerConfig, n: nat, w: Weights, i: int)
    requires
        transformer::blocks_of(c, n, w) is Ok,
        0 <= i < n,
    ensures
        transformer::blocks_of(c, n, w)->Ok_0.len() == n,
        BlockModel::of_weights(c, w.scoped("blocks."@ + text::decimal(i as nat))) == Ok::<
            BlockModel,
            Fault,
        >(transformer::blocks_of(c, n, w)->Ok_0[i]),
    decreases n,
{
    assert(transformer::block_scope(i) == "blocks."@ + text::decimal(i as nat));
    if n == 1 {
        reveal_with_fuel(transformer::blocks_of, 2);
    } else if i < n - 1 {
        lemma_blocks_are_loaded(c, (n - 1) as nat, w, i);
    } else {
        lemma_blocks_are_loaded(c, (n - 1) as nat, w, 0);
    }
}

/// The trained parts of a model are loaded exactly where all three are, each from its
/// scope, for the size and the padding of the tokenizer.
pub proof fn law_trained_parts_are_loaded_by_part(
    meta: ModelMeta,
    vocab_size: usize,
    pad_id: usize,
    w: Weights,
)
    ensures
        ({
            let r = TrainedParts::of_weights(meta, vocab_size, pad_id, w);
            let embedding = EmbeddingModel::of_weights(
                vocab_size,
                meta.d_model,
                Some(pad_id),
                w.scoped("embedding"@),
            );
            let transformer = TransformerModel::of_weights(
                meta.layers(),
                meta.n_layers,
                w.scoped("transformer"@),
            );
            let head = OutputHeadModel::of_weights(
                vocab_size,
                meta.d_model,
                w.scoped("output_head"@),
            );
            &&& r is Ok <==> embedding is Ok && transformer is Ok && head is Ok
            &&& r is Ok ==> embedding == Ok::<EmbeddingModel, Fault>(r->Ok_0.embedding)
                && transformer == Ok::<TransformerModel, Fault>(r->Ok_0.transformer) && head == Ok::<
                OutputHeadModel,
                Fault,
            >(r->Ok_0.output_head)
        }),
{
}

/// The numbers of a model are loaded exactly where the five that no model can do without
/// are stored.
pub proof fn law_numbers_are_loaded_where_stored(w: Weights)
    ensures
        ({
            let r = ModelMeta::of_weights(w);
            &&& r is Ok <==> w.scalars.contains_key("meta.d_model"@) && w.scalars.contains_key(
                "meta.n_heads"@,
            ) && w.scalars.contains_key("meta.d_ff"@) && w.scalars.contains_key(
                "meta.n_layers"@,
            ) && w.scalars.contains_key("meta.max_len"@)
            &&& r is Ok ==> r->Ok_0.d_model == w.scalars["meta.d_model"@] as usize
                && r->Ok_0.n_heads == w.scalars["meta.n_heads"@] as usize && r->Ok_0.d_ff
                == w.scalars["meta.d_ff"@] as usize && r->Ok_0.n_layers == w.scalars[
            "meta.n_layers"@] as usize && r->Ok_0.max_len == w.scalars["meta.max_len"@] as usize
            &&& r is Err ==> r->Err_0 is MissingKey && !w.scalars.contains_key(
                r->Err_0->MissingKey_0,
            )
        }),
{
}

/// The settings of an optimizer are loaded as they are stored, and only where all are.
pub proof fn law_settings_are_loaded_where_stored(w: Weights)
    ensures
        ({
            let r = AdamWModel::of_weights(w);
            let s = w.scalars;
            &&& r is Ok ==> s.contains_key("lr"@) && s.contains_key("beta1"@) && s.contains_key(
                "beta2"@,
            ) && s.contains_key("eps"@) && s.contains_key("wd"@) && s.contains_key("step_count"@)
            &&& r is Ok ==> r->Ok_0.lr == s["lr"@] as u32 && r->Ok_0.beta1 == s["beta1"@] as u32
                && r->Ok_0.beta2 == s["beta2"@] as u32 && r->Ok_0.eps == s["eps"@] as u32
                && r->Ok_0.wd == s["wd"@] as u32 && r->Ok_0.step_count == s[
            "step_count"@] as usize
        }),
{
}

/// A network is loaded as one of the kind asked for. A gated one has two thirds of the
/// units, rounded down.
pub proof fn law_networks_have_the_width_of_their_kind(
    kind: FeedForwardKind,
    d_model: usize,
    d_ff: usize,
    w: Weights,
)
    requires
        d_ff * 2 <= usize::MAX,
        FeedForwardModel::of_weights(kind, d_model, d_ff, w) is Ok,
    ensures
        ({
            let m = FeedForwardModel::of_weights(kind, d_model, d_ff, w)->Ok_0;
            &&& kind == FeedForwardKind::Gelu ==> m is Gelu && GeluModel::of_weights(
                d_model,
                d_ff,
                w,
            ) == Ok::<GeluModel, Fault>(m->Gelu_0)
            &&& kind == FeedForwardKind::SwiGlu ==> m is SwiGlu && 3 * m->SwiGlu_0.d_ff_g <= 2 * d_ff
                < 3 * m->SwiGlu_0.d_ff_g + 3 && SwiGluModel::of_weights(
                d_model,
                m->SwiGlu_0.d_ff_g,
                w,
            ) == Ok::<SwiGluModel, Fault>(m->SwiGlu_0)
            &&& m.kind() == kind
            &&& m.fits(d_model, d_ff)
        }),
{
}

} // verus!
