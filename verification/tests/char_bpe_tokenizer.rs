use transformer::char_bpe_tokenizer::CharBpeTokenizer;
use transformer::checkpoint::Checkpointable;
use transformer::tokenizer::Tokenizer;

#[test]
fn special_tokens_at_head() {
    let t = CharBpeTokenizer::train("abc", 100);
    assert_eq!(t.id_to_token[0], CharBpeTokenizer::PAD);
    assert_eq!(t.id_to_token[1], CharBpeTokenizer::UNK);
    assert_eq!(t.id_to_token[2], CharBpeTokenizer::BOS);
    assert_eq!(t.id_to_token[3], CharBpeTokenizer::EOS);
}

#[test]
fn english_roundtrip_lossless() {
    let text = "the quick brown fox jumps over the lazy dog\n";
    let t = CharBpeTokenizer::train(text, 200);
    let ids = t.encode_prompt(text);
    let decoded = t.decode(&ids);
    assert_eq!(decoded, text);
}

#[test]
fn japanese_roundtrip_lossless() {
    let text = "吾輩は猫である。\n名前はまだ無い。";
    let t = CharBpeTokenizer::train(text, 100);
    let ids = t.encode_prompt(text);
    let decoded = t.decode(&ids);
    assert_eq!(decoded, text);
}

#[test]
fn mixed_jp_en_punct_roundtrip() {
    let text = "Hello, 世界!\nそれから「ABC」と言った。";
    let t = CharBpeTokenizer::train(text, 200);
    let ids = t.encode_prompt(text);
    let decoded = t.decode(&ids);
    assert_eq!(decoded, text);
}

#[test]
fn larger_vocab_yields_shorter_sequence() {
    let text = "あいうえおあいうえおあいうえおあいうえお";
    let t_small = CharBpeTokenizer::train(text, 10);
    let t_large = CharBpeTokenizer::train(text, 100);
    let ids_small = t_small.encode_prompt(text);
    let ids_large = t_large.encode_prompt(text);
    assert!(
        ids_large.len() < ids_small.len(),
        "expected larger vocab to compress: small={} large={}",
        ids_small.len(),
        ids_large.len()
    );
}

#[test]
fn unknown_char_maps_to_unk() {
    let t = CharBpeTokenizer::train("abc", 50);
    let ids = t.encode_prompt("axb");
    let unk = t.unk_id;
    let bos = t.bos_id();
    assert_eq!(ids[0], bos);
    let xs: Vec<_> = ids.iter().filter(|&&id| id == unk).collect();
    assert_eq!(xs.len(), 1, "ids={ids:?}");
}

#[test]
fn add_special_token_then_recognize_in_text() {
    let mut t = CharBpeTokenizer::train("夏目漱石は猫である。", 100);
    let initial_vocab = t.vocab_size();
    let author_id = t.add_special_token("<AUTHOR=夏目漱石>");
    let drama_id = t.add_special_token("<DRAMA>");
    assert_eq!(t.vocab_size(), initial_vocab + 2);
    assert_eq!(author_id, initial_vocab);
    assert_eq!(drama_id, initial_vocab + 1);
    assert!(t.special_tokens().iter().any(|s| s == "<AUTHOR=夏目漱石>"));

    let ids = t.encode_prompt("<AUTHOR=夏目漱石>猫である。");
    assert_eq!(ids[0], t.bos_id());
    assert_eq!(ids[1], author_id);
    assert!(ids.len() >= 3, "ids={ids:?}");
}

#[test]
fn special_tokens_survive_checkpoint_roundtrip() {
    let mut original = CharBpeTokenizer::train("吾輩は猫である。", 80);
    original.add_special_token("<AUTHOR=夏目漱石>");
    original.add_special_token("<DRAMA>");
    let map = Tokenizer::to_weight_map(&original);

    let mut restored = CharBpeTokenizer::empty();
    Checkpointable::from_weight_map(&mut restored, &map).unwrap();

    assert_eq!(restored.vocab_size(), original.vocab_size());
    assert_eq!(restored.special_tokens().len(), 4 + 2);
    assert!(restored.special_tokens().iter().any(|s| s == "<AUTHOR=夏目漱石>"));

    let sample = "<DRAMA>吾輩は猫である。";
    assert_eq!(
        restored.encode_prompt(sample),
        original.encode_prompt(sample),
    );
}

#[test]
fn encode_long_skips_redundant_bos_eos() {
    let t = CharBpeTokenizer::train("吾輩は猫", 80);
    let bos = t.bos_id();
    let eos = t.eos_id();

    let ids_plain = t.encode_long("吾輩");
    assert_eq!(ids_plain.first().copied(), Some(bos));
    assert_eq!(ids_plain.last().copied(), Some(eos));

    let ids_marked = t.encode_long("<BOS>吾輩<EOS>");
    let bos_count = ids_marked.iter().filter(|&&i| i == bos).count();
    let eos_count = ids_marked.iter().filter(|&&i| i == eos).count();
    assert_eq!(bos_count, 1, "BOS should appear exactly once: ids={ids_marked:?}");
    assert_eq!(eos_count, 1, "EOS should appear exactly once: ids={ids_marked:?}");
}

#[test]
fn unregistered_angle_brackets_are_char_encoded() {
    let t = CharBpeTokenizer::train("a<b>c<d>e", 50);
    let ids = t.encode_prompt("a<b>c");
    let decoded = t.decode(&ids);
    assert_eq!(decoded, "a<b>c");
}

#[test]
fn whitespace_and_punct_are_explicit_tokens() {
    let text = "a b\nc。d";
    let t = CharBpeTokenizer::train(text, 50);
    let ids = t.encode_prompt(text);
    let decoded = t.decode(&ids);
    assert_eq!(decoded, text);
}

#[test]
fn char_bpe_tokenizer_save_and_load_roundtrip() {
    let text = "それでも私は彼女のことを思い続けた。\n夏目漱石。";
    let original = CharBpeTokenizer::train(text, 80);
    let map = Tokenizer::to_weight_map(&original);

    let mut restored = CharBpeTokenizer::empty();
    Checkpointable::from_weight_map(&mut restored, &map).unwrap();

    assert_eq!(restored.vocab_size(), original.vocab_size());
    assert_eq!(restored.unk_id, original.unk_id);
    assert_eq!(restored.merges.len(), original.merges.len());

    let sample = "夏目漱石が私は";
    assert_eq!(
        restored.encode_prompt(sample),
        original.encode_prompt(sample),
    );
}

#[test]
fn all_tokens_are_valid_utf8_strings() {
    let text = "吾輩は猫である。名前はまだ無い。どこで生れたかとんと見当がつかぬ。";
    let t = CharBpeTokenizer::train(text, 200);
    for tok in &t.id_to_token {
        let _ = tok.chars().count();
    }
}

#[test]
fn extend_merges_grows_vocab_and_compresses() {
    let text = "あいうえおあいうえおあいうえおかきくけこかきくけこ";
    let mut t = CharBpeTokenizer::train(text, 12);
    let n_before = t.vocab_size();
    let merges_before = t.num_merges();
    let ids_before = t.encode_prompt(text);

    t.extend_merges(text, 50);

    let n_after = t.vocab_size();
    let merges_after = t.num_merges();
    let ids_after = t.encode_prompt(text);

    assert!(n_after > n_before, "vocab should grow: {n_before} -> {n_after}");
    assert!(
        merges_after > merges_before,
        "merges should grow: {merges_before} -> {merges_after}"
    );
    assert!(
        ids_after.len() <= ids_before.len(),
        "extended tokenizer should compress >= original: {} vs {}",
        ids_before.len(),
        ids_after.len()
    );
}

/// A tokenizer read from a checkpoint with the given merges.
fn with_merges(chars: &str, merges: &[(&str, &str)]) -> CharBpeTokenizer {
    let t = CharBpeTokenizer::train(chars, 0);
    let mut map = Tokenizer::to_weight_map(&t);
    let flat = merges.iter().flat_map(|&(a, b)| [a.to_string(), b.to_string()]).collect();
    map.insert_strings("merges", flat);
    let mut r = CharBpeTokenizer::empty();
    Checkpointable::from_weight_map(&mut r, &map).unwrap();
    r
}

#[test]
fn known_merges_keep_their_ranks() {
    let mut t = with_merges("abc ", &[("ab", "c")]);
    t.extend_merges("abc ab", 100);
    let pair = |a: &str, b: &str| (a.to_string(), b.to_string());
    assert_eq!(t.merges_for_debug(), [pair("ab", "c"), pair("a", "b")]);
    assert_eq!(t.encode_word("abc"), vec!["abc"]);
    assert_eq!(t.encode_word("ab"), vec!["ab"]);
}

#[test]
fn no_pair_is_learned_twice() {
    let text = "あいうえおあいうえおあいうえおかきくけこかきくけこ";
    let mut t = CharBpeTokenizer::train(text, 16);
    let before = t.merges_for_debug().to_vec();
    t.extend_merges("あいうかきくあいうえおえおけこけこ", 60);
    let after = t.merges_for_debug();
    assert!(after.len() > before.len());
    assert_eq!(after[..before.len()], before[..]);
    for i in 0..after.len() {
        assert!(!after[..i].contains(&after[i]), "{:?}", after[i]);
    }
}

#[test]
fn words_become_tokens_where_training_ends_early() {
    let t = CharBpeTokenizer::train("abcab bcabc aaa", 1000);
    assert!(t.vocab_size() < 1000);
    for word in ["abcab", "bcabc", "aaa"] {
        assert_eq!(t.encode_word(word), vec![word]);
    }
}

#[test]
fn merging_leaves_no_merged_pair() {
    let text = "the quick brown fox the quick the";
    let t = CharBpeTokenizer::train(text, 40);
    for word in ["the", "quick", "thequickbrownfox"] {
        let symbols = t.encode_word(word);
        assert_eq!(symbols.concat(), word);
        for pair in symbols.windows(2) {
            assert!(!t.merges.contains(&(pair[0].clone(), pair[1].clone())));
        }
    }
}

#[test]
fn extend_merges_preserves_lossless_decode() {
    let text = "夏目漱石は猫を描いた。\n吾輩は猫である。";
    let mut t = CharBpeTokenizer::train(text, 50);
    t.extend_merges(text, 100);

    let ids = t.encode_prompt(text);
    let decoded = t.decode(&ids);
    assert_eq!(decoded, text);
}

#[test]
fn extend_coverage_adds_new_chars() {
    let mut t = CharBpeTokenizer::train("abc", 50);
    let vocab_before = t.vocab_size();
    let merges_before = t.num_merges();

    t.extend_coverage("def");

    assert_eq!(t.vocab_size(), vocab_before + 3);
    assert_eq!(t.num_merges(), merges_before, "merges should be unchanged");

    t.extend_coverage("abc");
    assert_eq!(t.vocab_size(), vocab_before + 3);
}

#[test]
fn extended_tokenizer_save_load_roundtrip() {
    let text = "吾輩は猫である。名前はまだ無い。どこで生れたかとんと見当がつかぬ。";
    let mut original = CharBpeTokenizer::train(text, 100);
    original.extend_merges(text, 200);

    let map = Tokenizer::to_weight_map(&original);
    let mut restored = CharBpeTokenizer::empty();
    Checkpointable::from_weight_map(&mut restored, &map).unwrap();

    assert_eq!(restored.vocab_size(), original.vocab_size());
    assert_eq!(restored.merges.len(), original.merges.len());

    let sample = "猫である";
    assert_eq!(
        restored.encode_prompt(sample),
        original.encode_prompt(sample),
    );
}
