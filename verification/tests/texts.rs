use transformer::text::{
    decimal_of, first_chars, is_white_space, join_with, padded_decimal_of, split_at_text,
    split_chars, split_lines, split_white_space, string_of_char, stripped, trimmed, CharClass,
};

#[test]
fn white_space_is_that_of_unicode() {
    for u in 0..=0x10ffffu32 {
        if let Some(c) = char::from_u32(u) {
            assert_eq!(is_white_space(c), c.is_whitespace(), "{u:x}");
        }
    }
}

#[test]
fn texts_are_split_as_std_splits_them() {
    for s in ["", " ", "a b", "  a\tb\n\nc　d ", "吾輩は\u{3000}猫\r\n", "\n", "a\r\nb\nc", "x\r"] {
        let words: Vec<String> = s.split_whitespace().map(String::from).collect();
        assert_eq!(split_white_space(s), words);
        let lines: Vec<String> = s.lines().map(String::from).collect();
        assert_eq!(split_lines(s), lines);
        assert_eq!(trimmed(s, CharClass::WhiteSpace), s.trim());
        let chars: Vec<String> = s.chars().map(|c| c.to_string()).collect();
        assert_eq!(split_chars(s), chars);
    }
    let pieces: Vec<String> = "a--b----c".split("--").map(String::from).collect();
    assert_eq!(split_at_text("a--b----c", "--"), pieces);
    assert_eq!(join_with(&pieces, "--"), "a--b----c");
}

#[test]
fn numbers_are_written_in_decimal() {
    for n in [0, 7, 10, 99, 100, 12345, u64::MAX] {
        assert_eq!(decimal_of(n), n.to_string());
        assert_eq!(padded_decimal_of(n, 5), format!("{n:05}"));
    }
}

#[test]
fn small_helpers_give_exact_texts() {
    assert_eq!(first_chars("吾輩は猫", 2), "吾輩");
    assert_eq!(first_chars("ab", 5), "ab");
    assert_eq!(string_of_char('猫'), "猫");
    assert_eq!(stripped("=====abc==========", "====="), "abc");
}
