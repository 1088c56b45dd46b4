use transformer::bpe_tokenizer::{build_word_freq, byte_token, split_word_bytes, BpeTokenizer};
use transformer::checkpoint::{Checkpointable, WeightMap};
use transformer::tokenizer::{
    load_tokenizer, train_tokenizer, train_tokenizer_with_coverage, AnyTokenizer, Tokenizer,
    TokenizerKind,
};

#[test]
fn bytes_are_tokens() {
    assert_eq!(byte_token(7), "b007");
    assert_eq!(byte_token(255), "b255");
    assert_eq!(split_word_bytes("hi"), vec!["b104", "b105</w>"]);
    assert_eq!(split_word_bytes("é"), vec!["b195", "b169</w>"]);
    assert!(split_word_bytes("").is_empty());
}

#[test]
fn words_are_counted_in_lower_case() {
    let freq = build_word_freq(&["The the CAT", "ÄÖ äö İ"]);
    let counts: Vec<(String, usize)> = freq.iter().map(|f| (f.word.clone(), f.freq)).collect();
    assert!(counts.contains(&("the".to_string(), 2)));
    assert!(counts.contains(&("cat".to_string(), 1)));
    assert!(counts.contains(&("äö".to_string(), 2)));
    assert!(counts.contains(&("i\u{307}".to_string(), 1)));
    assert_eq!(counts.len(), 4);
}

#[test]
fn the_vocabulary_starts_with_markers_and_bytes() {
    let t = BpeTokenizer::train(&["a"], 0);
    assert_eq!(t.vocab_size(), 516);
    assert_eq!(t.pad_id(), 0);
    assert_eq!(t.bos_id(), 2);
    assert_eq!(t.eos_id(), 3);
    assert_eq!(t.encode_simple("a"), vec![2, 4 + 2 * 97 + 1, 3]);
}

#[test]
fn words_come_back() {
    let text = "To be or not to be that is the question";
    let t = BpeTokenizer::train(&[text], 560);
    let ids = t.encode(text);
    assert_eq!(ids[0], t.bos_id());
    assert_eq!(*ids.last().unwrap(), t.eos_id());
    assert_eq!(t.decord(&ids).trim(), text);
    assert_eq!(t.encode_simple("be").len(), 3);
    assert_eq!(t.encode_prompt("to")[0], t.bos_id());
}

#[test]
fn broken_characters_are_repaired() {
    let t = BpeTokenizer::train(&["é"], 516);
    let ids = t.encode_simple("é");
    assert_eq!(ids.len(), 4);
    assert_eq!(t.decord(&ids).trim(), "é");
    assert!(t.decord(&ids[..2]).contains('\u{fffd}'));
}

#[test]
fn merges_follow_the_most_frequent_pair() {
    let t = BpeTokenizer::train(&["ab ab ab cd"], 517);
    assert_eq!(t.vocab_size(), 517);
    assert_eq!(t.encode_simple("ab"), vec![2, 516, 3]);
    assert_eq!(t.encode_simple("cd").len(), 4);
}

#[test]
fn an_early_end_leaves_whole_words() {
    let t = BpeTokenizer::train(&["The cat, the Äpfel", "a"], 10_000);
    assert!(t.vocab_size() < 10_000);
    for word in ["the", "cat,", "äpfel", "a"] {
        let found = (0..t.vocab_size()).any(|id| t.decord(&[id]) == word);
        assert!(found, "{word}");
    }
    assert!(!(0..t.vocab_size()).any(|id| t.decord(&[id]) == "dog"));
}

#[test]
fn bpe_tokenizer_save_and_load_roundtrip() {
    let t = BpeTokenizer::train(&["the quick brown fox the quick"], 540);
    let map = Checkpointable::to_weight_map(&t);
    let mut r = BpeTokenizer::empty();
    Checkpointable::from_weight_map(&mut r, &map).unwrap();
    assert_eq!(r.vocab_size(), t.vocab_size());
    assert_eq!(r.encode("quick the"), t.encode("quick the"));
}

#[test]
fn tokenizers_of_all_kinds_are_loaded() {
    for kind in [TokenizerKind::Bpe, TokenizerKind::Char, TokenizerKind::CharBpe] {
        let t = train_tokenizer(kind, "hello world", 530);
        let r = load_tokenizer(&t.to_weight_map()).unwrap();
        assert_eq!(r.kind(), kind);
        assert_eq!(r.vocab_size(), t.vocab_size());
        assert_eq!(r.encode_long("hello"), t.encode_long("hello"));
        let ids = r.encode_prompt("world");
        assert_eq!(r.decode(&ids).trim(), "world");
    }
    let t = train_tokenizer_with_coverage(TokenizerKind::CharBpe, "ab", "abc", 100);
    assert_eq!(t.decode(&t.encode_prompt("cab")), "cab");
    let t = train_tokenizer_with_coverage(TokenizerKind::Char, "ab", "abc", 100);
    assert!(matches!(t, AnyTokenizer::Char(_)));
    assert_eq!(t.eos_id(), usize::MAX);
}

#[test]
fn tokens_that_cannot_be_cut_are_found() {
    let tokens = ["<PAD>", "b104", "b+33</w>", "béé", "bあ", "béa", "b999"];
    let mut map = WeightMap::new();
    map.insert_strings("id_to_token", tokens.iter().map(|t| t.to_string()).collect());
    map.insert_strings("merges", Vec::new());
    map.insert_scalar("unk_id", 0);
    let mut t = BpeTokenizer::empty();
    Checkpointable::from_weight_map(&mut t, &map).unwrap();
    assert!(t.can_decode(&[0, 1, 2, 4, 5, 6, 99]));
    assert!(!t.can_decode(&[1, 3]));
    assert_eq!(t.decord(&[0, 1, 2, 4, 5, 6, 99]), "h!");
    assert_eq!(BpeTokenizer::decode_token_to_bytes("b104b105x"), vec![104, 105]);
}
