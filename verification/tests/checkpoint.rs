use transformer::adam_w::{key_of_moment, parameter_of_key, AdamWState, Moment};
use transformer::checkpoint::{WeightMap, VERSION};
use transformer::error::{DataError, Family, Part};
use transformer::feed_forward::FeedForwardKind;
use transformer::normalization::NormalizationKind;
use transformer::positional_encoding::PositionalEncodingKind;
use transformer::table::{comes_before, Table};
use transformer::tokenizer::TokenizerKind;

fn sample() -> WeightMap {
    let mut map = WeightMap::new();
    map.insert_scalar("n", 7);
    map.insert_vector("v", vec![1.5f32.to_bits(), (-2.0f32).to_bits()]);
    map.insert_matrix("m", vec![vec![1, 2], vec![], vec![3]]);
    map.insert_strings("s", vec!["猫".to_string(), String::new()]);
    map
}

#[test]
fn a_checkpoint_has_exact_bytes() {
    let mut map = WeightMap::new();
    map.insert_scalar("a", 258);
    let mut expected = b"TFWM".to_vec();
    expected.extend(1u32.to_le_bytes());
    expected.extend(1u64.to_le_bytes());
    expected.push(1);
    expected.extend(1u64.to_le_bytes());
    expected.push(b'a');
    expected.extend(258u64.to_le_bytes());
    assert_eq!(map.to_bytes(), expected);
    assert_eq!(VERSION, 1);
}

#[test]
fn a_checkpoint_is_loaded_as_it_was_saved() {
    let loaded = WeightMap::from_bytes(&sample().to_bytes()).unwrap();
    assert_eq!(loaded.get_scalar("n").unwrap(), 7);
    assert_eq!(f32::from_bits(loaded.get_vector("v").unwrap()[1]), -2.0);
    assert_eq!(loaded.get_matrix("m").unwrap(), &vec![vec![1, 2], vec![], vec![3]]);
    assert_eq!(loaded.get_strings("s").unwrap(), &vec!["猫".to_string(), String::new()]);
    assert_eq!(loaded.to_bytes(), sample().to_bytes());
}

#[test]
fn keys_are_written_in_the_order_of_their_bytes() {
    let mut a = WeightMap::new();
    a.insert_scalar("b", 1);
    a.insert_scalar("a.b", 2);
    a.insert_scalar("aa", 3);
    let mut b = WeightMap::default();
    b.insert_scalar("aa", 3);
    b.insert_scalar("a.b", 2);
    b.insert_scalar("b", 1);
    assert_eq!(a.to_bytes(), b.to_bytes());
    assert!(comes_before("a.b", "aa"));
    assert!(comes_before("aa", "b"));
    assert!(!comes_before("b", "b"));
    assert!(comes_before("z", "あ"));
}

#[test]
fn unusable_bytes_are_refused() {
    let good = sample().to_bytes();
    assert!(matches!(WeightMap::from_bytes(b"XXXX"), Err(DataError::BadMagic)));
    assert!(matches!(WeightMap::from_bytes(b"TF"), Err(DataError::Truncated)));
    let mut version = good.clone();
    version[4] = 9;
    assert!(matches!(
        WeightMap::from_bytes(&version),
        Err(DataError::UnsupportedVersion(9))
    ));
    assert!(matches!(
        WeightMap::from_bytes(&good[..good.len() - 1]),
        Err(DataError::Truncated)
    ));
    let mut kind = good.clone();
    kind[16] = 77;
    assert!(matches!(WeightMap::from_bytes(&kind), Err(DataError::UnknownRecord(77))));
    let mut key = good.clone();
    key[25] = 0xff;
    assert!(matches!(WeightMap::from_bytes(&key), Err(DataError::InvalidUtf8)));
}

#[test]
fn what_is_not_stored_is_missing() {
    let map = sample();
    for e in [
        map.get_scalar("v").err(),
        map.get_vector("n").err(),
        map.get_matrix("x").err(),
        map.get_strings("m").err(),
    ] {
        assert!(matches!(e, Some(DataError::MissingKey(_))));
    }
    match map.get_scalar("x.y") {
        Err(DataError::MissingKey(k)) => assert_eq!(k, "x.y"),
        _ => panic!("a key is missing"),
    }
}

#[test]
fn a_scope_gives_back_what_was_merged() {
    let mut map = WeightMap::new();
    map.insert_scalar("a", 1);
    map.insert_scalar("ab.c", 2);
    map.merge("a", sample());
    assert_eq!(map.get_scalar("a.n").unwrap(), 7);
    let scope = map.scoped("a");
    assert_eq!(scope.to_bytes(), sample().to_bytes());
    assert!(map.scoped("b").get_scalar("n").is_err());
    assert_eq!(map.vector_keys(), vec!["a.v".to_string()]);
}

#[test]
fn a_table_is_walked_in_order() {
    let mut t: Table<u64> = Table::new();
    t.insert("b", 1);
    t.insert("a", 2);
    t.insert("b", 3);
    assert_eq!(t.len(), 2);
    assert_eq!((t.key_at(0).as_str(), *t.value_at(0)), ("a", 2));
    assert_eq!((t.key_at(1).as_str(), *t.value_at(1)), ("b", 3));
    assert_eq!(t.get("b"), Some(&3));
    assert_eq!(t.get("c"), None);
}

#[test]
fn kinds_have_codes() {
    for k in [TokenizerKind::Bpe, TokenizerKind::Char, TokenizerKind::CharBpe] {
        assert_eq!(TokenizerKind::from_u64(k.as_u64()).unwrap(), k);
    }
    assert_eq!(TokenizerKind::CharBpe.as_u64(), 3);
    assert!(matches!(
        TokenizerKind::from_u64(4),
        Err(DataError::UnknownCode(Family::Tokenizer, 4))
    ));
    assert_eq!(NormalizationKind::Layer.as_u64(), 1);
    assert_eq!(NormalizationKind::from_u64(2).unwrap(), NormalizationKind::Rms);
    assert!(matches!(
        NormalizationKind::from_u64(0),
        Err(DataError::UnknownCode(Family::Normalization, 0))
    ));
    assert_eq!(FeedForwardKind::from_u64(1).unwrap(), FeedForwardKind::Gelu);
    assert_eq!(FeedForwardKind::SwiGlu.as_u64(), 2);
    assert!(matches!(
        FeedForwardKind::from_u64(3),
        Err(DataError::UnknownCode(Family::FeedForward, 3))
    ));
    assert_eq!(PositionalEncodingKind::Rope.as_u64(), 2);
    assert_eq!(
        PositionalEncodingKind::from_u64(1).unwrap(),
        PositionalEncodingKind::Sinusoidal
    );
    assert!(matches!(
        PositionalEncodingKind::from_u64(9),
        Err(DataError::UnknownCode(Family::PositionalEncoding, 9))
    ));
    assert_ne!(Part::Attention, Part::Embedding);
}

fn optimizer() -> AdamWState {
    let mut moments: Table<Moment> = Table::new();
    moments.insert("head.w", Moment { data: vec![1, 2], m: vec![3, 4], v: vec![5, 6] });
    moments.insert("a.m", Moment { data: vec![7], m: vec![8], v: vec![9] });
    moments.insert("a", Moment { data: vec![], m: vec![], v: vec![] });
    AdamWState {
        lr: 1e-3f32.to_bits(),
        beta1: 0.9f32.to_bits(),
        beta2: 0.999f32.to_bits(),
        eps: 1e-8f32.to_bits(),
        wd: 0.01f32.to_bits(),
        step_count: 12,
        moments,
    }
}

#[test]
fn an_optimizer_is_loaded_as_it_was_saved() {
    let map = optimizer().to_weight_map();
    assert_eq!(map.get_vector("moments.head.w.m").unwrap(), &vec![3, 4]);
    assert_eq!(map.get_vector("moments.a.m.data").unwrap(), &vec![7]);
    let loaded = AdamWState::from_weight_map(&map).unwrap();
    assert_eq!(loaded.step_count, 12);
    assert_eq!(f32::from_bits(loaded.beta2), 0.999);
    assert_eq!(loaded.moments.len(), 3);
    assert_eq!(loaded.moments.get("a.m").unwrap().v, vec![9]);
    assert_eq!(loaded.to_weight_map().to_bytes(), map.to_bytes());
}

#[test]
fn an_optimizer_without_a_moment_is_refused() {
    let mut map = WeightMap::new();
    for key in ["lr", "beta1", "beta2", "eps", "wd"] {
        map.insert_scalar(key, 0);
    }
    assert!(matches!(
        AdamWState::from_weight_map(&map),
        Err(DataError::MissingKey(k)) if k == "step_count"
    ));
    map.insert_scalar("step_count", 1);
    assert_eq!(AdamWState::from_weight_map(&map).unwrap().moments.len(), 0);
    map.insert_vector("moments.x.data", vec![1]);
    map.insert_vector("moments.x.m", vec![1]);
    assert!(matches!(
        AdamWState::from_weight_map(&map),
        Err(DataError::MissingKey(k)) if k == "moments.x.v"
    ));
}

#[test]
fn parameters_are_found_in_keys() {
    assert_eq!(key_of_moment("head.w", "v"), "moments.head.w.v");
    assert_eq!(parameter_of_key("moments.head.w.data"), Some("head.w".to_string()));
    assert_eq!(parameter_of_key("moments..data"), Some(String::new()));
    assert_eq!(parameter_of_key("moments.head.w.m"), None);
    assert_eq!(parameter_of_key("moment.head.w.data"), None);
    assert_eq!(parameter_of_key("moments.data"), None);
}
