use transformer::adam_w::AdamWState;
use transformer::char_tokenizer::CharTokenizer;
use transformer::checkpoint::WeightMap;
use transformer::embedding::EmbeddingWeights;
use transformer::error::{DataError, Part};
use transformer::feed_forward::{
    FeedForwardKind, FeedForwardWeights, GeluWeights, SwiGluWeights,
};
use transformer::language_model::{ModelMeta, ModelWeights};
use transformer::multi_head_attention::{AttentionWeights, HeadShape};
use transformer::normalization::{NormWeights, NormalizationKind};
use transformer::output_head::OutputHeadWeights;
use transformer::positional_encoding::PositionalEncodingKind;
use transformer::table::Table;
use transformer::tokenizer::{AnyTokenizer, Tokenizer};
use transformer::transformer::{block_prefix, BlockWeights, LayerConfig, TransformerWeights};

fn rows(n: usize, m: usize, from: u32) -> Vec<Vec<u32>> {
    (0..n).map(|i| (0..m).map(|j| from + (i * m + j) as u32).collect()).collect()
}

fn attention(shape: HeadShape) -> AttentionWeights {
    AttentionWeights {
        shape,
        w_q: rows(shape.d_model, shape.d_model, 1),
        w_k: rows(shape.d_model, shape.d_kv_model, 100),
        w_v: rows(shape.d_model, shape.d_kv_model, 200),
        w_o: rows(shape.d_model, shape.d_model, 300),
    }
}

fn rms(from: u32) -> NormWeights {
    NormWeights::Rms { gain: vec![from, from + 1, from + 2, from + 3] }
}

fn block(from: u32) -> BlockWeights {
    BlockWeights {
        mha: attention(HeadShape::new(4, 2, 2)),
        norm1: rms(from),
        ffn: FeedForwardWeights::SwiGlu(SwiGluWeights {
            d_model: 4,
            d_ff_g: 4,
            w_gate: rows(4, 4, from + 10),
            w_up: rows(4, 4, from + 30),
            w_down: rows(4, 4, from + 50),
        }),
        norm2: rms(from + 70),
    }
}

fn model(n_layers: usize) -> ModelWeights {
    let tokenizer = AnyTokenizer::Char(CharTokenizer::train("abc"));
    let vocab_size = tokenizer.vocab_size();
    let pad_id = tokenizer.pad_id();
    ModelWeights {
        meta: ModelMeta {
            d_model: 4,
            n_heads: 2,
            d_ff: 6,
            n_layers,
            max_len: 16,
            dropout_bits: 0.1f32.to_bits(),
            normalization_kind: NormalizationKind::Rms,
            feed_forward_kind: FeedForwardKind::SwiGlu,
            positional_encoding_kind: PositionalEncodingKind::Rope,
        },
        tokenizer,
        embedding: EmbeddingWeights {
            vocab_size,
            d_model: 4,
            pad_id: Some(pad_id),
            weight: rows(vocab_size, 4, 1000),
        },
        transformer: TransformerWeights {
            blocks: (0..n_layers).map(|i| block(1000 * i as u32)).collect(),
            final_norm: rms(9),
        },
        output_head: OutputHeadWeights { vocab_size, d_model: 4, w: rows(4, vocab_size, 2000) },
    }
}

#[test]
fn a_model_is_restored_as_it_was_stored() {
    let m = model(12);
    let bytes = m.build_weight_map().to_bytes();
    let map = WeightMap::from_bytes(&bytes).unwrap();
    let r = ModelWeights::restore_model(&map).unwrap();
    assert_eq!(r.meta, m.meta);
    assert_eq!(r.embedding.weight, m.embedding.weight);
    assert_eq!(r.output_head.w, m.output_head.w);
    assert_eq!(r.transformer.blocks.len(), 12);
    for (a, b) in r.transformer.blocks.iter().zip(&m.transformer.blocks) {
        assert_eq!(a.to_weight_map().to_bytes(), b.to_weight_map().to_bytes());
    }
    assert_eq!(r.tokenizer.encode_prompt("cab"), vec![3, 1, 2]);
    assert_eq!(r.build_weight_map().to_bytes(), bytes);
}

#[test]
fn the_keys_of_a_model_are_known() {
    let map = model(2).build_weight_map();
    assert_eq!(map.get_scalar("meta.n_layers").unwrap(), 2);
    assert_eq!(map.get_scalar("meta.positional_encoding_kind").unwrap(), 2);
    assert_eq!(map.get_scalar("meta.dropout_p").unwrap(), 0.1f32.to_bits() as u64);
    assert_eq!(map.get_scalar("tokenizer.kind").unwrap(), 2);
    assert_eq!(map.get_scalar("embedding.has_pad_id").unwrap(), 1);
    assert!(map.get_matrix("transformer.blocks.1.mha.w_q").is_ok());
    assert!(map.get_matrix("transformer.blocks.0.ffn.w_gate").is_ok());
    assert!(map.get_vector("transformer.blocks.1.norm2.gain").is_ok());
    assert!(map.get_vector("transformer.final_norm.gain").is_ok());
    assert!(map.get_matrix("output_head.w").is_ok());
    assert_eq!(block_prefix(10), "blocks.10");
}

#[test]
fn old_checkpoints_name_no_kinds() {
    let mut map = WeightMap::new();
    for (k, v) in [("d_model", 4), ("n_heads", 2), ("d_ff", 6), ("n_layers", 0), ("max_len", 8)] {
        map.insert_scalar(&format!("meta.{k}"), v);
    }
    let meta = ModelMeta::from_weight_map(&map).unwrap();
    assert_eq!(meta.dropout_bits, 0);
    assert_eq!(meta.normalization_kind, NormalizationKind::Layer);
    assert_eq!(meta.feed_forward_kind, FeedForwardKind::Gelu);
    assert_eq!(meta.positional_encoding_kind, PositionalEncodingKind::Sinusoidal);
    map.insert_scalar("meta.normalization_kind", 99);
    map.insert_scalar("meta.feed_forward_kind", 2);
    let meta = ModelMeta::from_weight_map(&map).unwrap();
    assert_eq!(meta.normalization_kind, NormalizationKind::Layer);
    assert_eq!(meta.feed_forward_kind, FeedForwardKind::SwiGlu);
    let missing = ModelMeta::from_weight_map(&WeightMap::new());
    assert!(matches!(missing, Err(DataError::MissingKey(k)) if k == "meta.d_model"));
}

fn optimizer() -> AdamWState {
    AdamWState { lr: 1, beta1: 2, beta2: 3, eps: 4, wd: 5, step_count: 6, moments: Table::new() }
}

#[test]
fn a_training_run_is_restored() {
    let map = model(1).build_training_map(&optimizer(), 77);
    let (m, opt, step) = ModelWeights::restore_training(&map).unwrap();
    assert_eq!(step, 77);
    assert_eq!(opt.step_count, 6);
    assert_eq!(m.meta.n_layers, 1);
    let plain = model(1).build_weight_map();
    assert!(matches!(
        ModelWeights::restore_training(&plain),
        Err(DataError::MissingKey(k)) if k == "meta.step"
    ));
}

#[test]
fn parts_of_another_shape_are_refused() {
    let mut map = model(1).build_weight_map();
    map.insert_scalar("transformer.n_layers", 2);
    assert!(matches!(
        ModelWeights::restore_model(&map),
        Err(DataError::Mismatch(Part::Transformer))
    ));
    let mut map = model(1).build_weight_map();
    map.insert_scalar("embedding.pad_id", 3);
    assert!(matches!(
        ModelWeights::restore_model(&map),
        Err(DataError::Mismatch(Part::Embedding))
    ));
    let mut map = model(1).build_weight_map();
    map.insert_scalar("output_head.d_model", 3);
    assert!(matches!(
        ModelWeights::restore_model(&map),
        Err(DataError::Mismatch(Part::OutputHead))
    ));
    let mut map = model(1).build_weight_map();
    map.insert_scalar("transformer.blocks.0.mha.n_kv_heads", 1);
    assert!(matches!(
        ModelWeights::restore_model(&map),
        Err(DataError::Mismatch(Part::Attention))
    ));
    let mut map = model(1).build_weight_map();
    map.insert_scalar("transformer.blocks.0.ffn.d_ff_g", 5);
    assert!(matches!(
        ModelWeights::restore_model(&map),
        Err(DataError::Mismatch(Part::FeedForward))
    ));
    let mut map = model(1).build_weight_map();
    map.insert_vector("transformer.blocks.0.norm2.gain", vec![1]);
    assert!(matches!(
        ModelWeights::restore_model(&map),
        Err(DataError::Mismatch(Part::Normalization))
    ));
    let mut map = model(1).build_weight_map();
    map.insert_scalar("tokenizer.kind", 8);
    assert!(matches!(
        ModelWeights::restore_model(&map),
        Err(DataError::UnknownCode(_, 8))
    ));
}

#[test]
fn layers_are_restored_as_they_were_stored() {
    let shape = HeadShape::new(4, 4, 2);
    let a = attention(shape);
    let r = AttentionWeights::from_weight_map(shape, &a.to_weight_map()).unwrap();
    assert_eq!((r.w_q, r.w_k), (a.w_q, a.w_k));
    assert_eq!((r.w_v, r.w_o), (a.w_v, a.w_o));

    let n = NormWeights::Layer { gamma: vec![1, 2], beta: vec![3, 4] };
    let map = n.to_weight_map();
    let r = NormWeights::from_weight_map(NormalizationKind::Layer, 2, &map).unwrap();
    assert!(matches!(r, NormWeights::Layer { gamma, beta } if gamma == [1, 2] && beta == [3, 4]));
    assert!(NormWeights::from_weight_map(NormalizationKind::Layer, 3, &map).is_err());
    assert!(matches!(
        NormWeights::from_weight_map(NormalizationKind::Rms, 2, &map),
        Err(DataError::MissingKey(k)) if k == "gain"
    ));

    let f = FeedForwardWeights::Gelu(GeluWeights {
        d_model: 1,
        d_ff: 2,
        w1: vec![vec![1, 2]],
        b1: vec![3, 4],
        w2: vec![vec![5], vec![6]],
        b2: vec![7],
    });
    let map = f.to_weight_map();
    let r = FeedForwardWeights::from_weight_map(FeedForwardKind::Gelu, 1, 2, &map).unwrap();
    assert_eq!(r.to_weight_map().to_bytes(), map.to_bytes());

    let e = EmbeddingWeights { vocab_size: 2, d_model: 1, pad_id: None, weight: rows(2, 1, 5) };
    let r = EmbeddingWeights::from_weight_map(2, 1, None, &e.to_weight_map()).unwrap();
    assert_eq!(r.weight, e.weight);
    assert_eq!(r.pad_id, None);
}

#[test]
fn numbers_of_layers_must_fit_together() {
    let c = model(1).meta.layer_config();
    assert!(c.is_sound());
    assert!(!LayerConfig { n_heads: 3, ..c }.is_sound());
    assert!(!LayerConfig { n_heads: 0, ..c }.is_sound());
    assert!(!LayerConfig { n_kv_heads: 0, ..c }.is_sound());
    assert!(LayerConfig { n_kv_heads: 1, ..c }.is_sound());
    assert!(!LayerConfig { d_ff: usize::MAX, ..c }.is_sound());
}
