//! Verified core of a small decoder-only Transformer language model.

pub mod adam_w;
pub mod aozora;
pub mod aozora_laws;
pub mod article_laws;
pub mod bpe_laws;
pub mod bpe_tokenizer;
pub mod char_bpe_laws;
pub mod char_bpe_tokenizer;
pub mod char_tokenizer;
pub mod checkpoint;
pub mod codec;
pub mod corpus_mix;
pub mod corpus_report;
pub mod cross_entropy_loss;
pub mod decode_laws;
pub mod embedding;
pub mod error;
pub mod float_order;
pub mod format_laws;
pub mod frequency_laws;
pub mod gemm;
pub mod language_model;
pub mod generation;
pub mod grid_laws;
pub mod kv_cache;
pub mod matrix;
pub mod merge_laws;
pub mod merges;
pub mod output_head;
pub mod pair_table;
pub mod pairs;
pub mod ranking;
pub mod report_laws;
pub mod run_laws;
pub mod sampling;
pub mod sampling_laws;
pub mod scopes;
pub mod stored;
pub mod stored_laws;
pub mod table;
pub mod multi_head_attention;
pub mod normalization;
pub mod feed_forward;
pub mod positional_encoding;
pub mod text;
pub mod text_laws;
pub mod token_laws;
pub mod tokenizer;
pub mod training;
pub mod training_run;
pub mod transformer;
pub mod utility;
pub mod wikipedia;
pub mod word_freq;
