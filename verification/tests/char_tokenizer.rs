use transformer::char_tokenizer::CharTokenizer;
use transformer::checkpoint::Checkpointable;
use transformer::tokenizer::Tokenizer;

#[test]
fn train_includes_unk_at_id_zero() {
    let t = CharTokenizer::train("abc");
    assert_eq!(t.vocab_size(), 4);
    assert_eq!(t.id_to_char[0], '\0');
    assert_eq!(t.encode_chars("a")[0], 1);
}

#[test]
fn encode_decode_roundtrip() {
    let text = "Hello, World!\nThis is a test.";
    let t = CharTokenizer::train(text);
    let ids = t.encode_long(text);
    let decoded = t.decode(&ids);
    assert_eq!(decoded, text);
}

#[test]
fn unknown_char_maps_to_unk_and_is_dropped_in_decode() {
    let t = CharTokenizer::train("abc");
    let ids = t.encode_prompt("axb");
    assert_eq!(ids, vec![1, 0, 2]);
    assert_eq!(t.decode(&ids), "ab");
}

#[test]
fn char_tokenizer_save_and_load_roundtrip() {
    let original = CharTokenizer::train("the quick brown fox\n");
    let map = Tokenizer::to_weight_map(&original);

    let mut restored = CharTokenizer::empty();
    Checkpointable::from_weight_map(&mut restored, &map).unwrap();

    assert_eq!(restored.vocab_size(), original.vocab_size());
    let text = "fox\nthe";
    assert_eq!(restored.encode_long(text), original.encode_long(text));
}
