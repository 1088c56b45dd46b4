# transformer

A decoder-only Transformer language model with its tokenizers, its checkpoint format
and the tools that prepare its corpora.

`src/` is the library, written in Verus. Its functions have contracts that are proved.
The few that hand work to rayon, rand or the standard library say in their comments what
is believed of it.

- **Tokenizers.** `char_tokenizer`, `char_bpe_tokenizer` and `bpe_tokenizer` behind the
  trait in `tokenizer`; `pairs`, `merges`, `pair_table` and `word_freq` learn merges;
  `merge_laws`, `char_bpe_laws` and `bpe_laws` prove what encoding, decoding and
  training promise.
- **Checkpoints.** `codec` and `checkpoint` are the byte format, `table` and `scopes` the
  maps behind it. `multi_head_attention`, `normalization`, `feed_forward`, `embedding`,
  `output_head`, `transformer`, `adam_w` and `language_model` say what is stored of each
  part, and prove that a model comes back from its checkpoint.
- **Model.** `matrix` and `gemm` handle shapes and layouts, `multi_head_attention` heads,
  masks and blocks, `kv_cache` the cache of keys and values, `generation`, `sampling` and
  `float_order` which tokens are run, ranked and drawn, `training`, `training_run` and
  `cross_entropy_loss` what a training run decides.
- **Corpora.** `aozora`, `wikipedia`, `corpus_mix`, `corpus_report` and `ranking` on top
  of `text`.

Weights are bit patterns in the library. `app/` is the program around it: floating-point
layers, files, downloads and the command line.

`tests/` runs the library on concrete values.
