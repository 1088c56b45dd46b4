use transformer::aozora::{
    clean_corpus, is_chapter_number_line, is_drama_speaker_line, parse_header, split_into_works,
};
use transformer::char_bpe_tokenizer::CharBpeTokenizer;
use transformer::corpus_mix::{
    header_is_recognized, mix, new_special_tokens, stratified_sample, train_with_markers,
};
use transformer::corpus_report::{
    analyze, count_pattern, count_single_char_lines, is_stage_line, length_bin,
};
use transformer::wikipedia::{
    clean_article, clean_articles, gather_articles, shard_name, wants_more, DOC_SEP,
};

#[test]
fn chapter_lines_are_recognized() {
    for line in ["一", "　十二　", "第三章", "第10回", "二十一"] {
        assert!(is_chapter_number_line(line), "{line}");
    }
    for line in ["", "一二三四", "第章", "三人", "第一章である", "12"] {
        assert!(!is_chapter_number_line(line), "{line}");
    }
}

#[test]
fn drama_lines_name_a_speaker() {
    assert!(is_drama_speaker_line("王子　わたしは行きます。"));
    assert!(is_drama_speaker_line("　ハムレット：生きるべきか死ぬべきか"));
    assert!(is_drama_speaker_line("ハムレット　お、何ぞ"));
    assert!(is_drama_speaker_line("王妃 私は……"));
    assert!(is_drama_speaker_line("王子　行く"));
    assert!(is_drama_speaker_line("王子　は"));
    assert!(!is_drama_speaker_line("王子　"));
    assert!(!is_drama_speaker_line("王子"));
    assert!(!is_drama_speaker_line("わたしは　行きます。行きます。"));
}

#[test]
fn headers_give_author_and_title() {
    assert_eq!(
        parse_header("夏目漱石 『こころ』"),
        ("夏目漱石".to_string(), "こころ".to_string())
    );
    assert_eq!(parse_header("無名"), ("無名".to_string(), String::new()));
    let works = split_into_works("前置き\n===== 太宰治『走れメロス』 =====\n一\nメロスは激怒した。\n");
    assert_eq!(works.len(), 1);
    assert_eq!(works[0].author, "太宰治");
    assert_eq!(works[0].title, "走れメロス");
    assert_eq!(works[0].body_lines, vec!["一", "メロスは激怒した。"]);
}

#[test]
fn prose_is_rendered_without_chapter_numbers() {
    let r = clean_corpus("===== 太宰治『走れメロス』 =====\n一\nメロスは激怒した。\n\n\n");
    assert_eq!(
        r.output,
        "<BOS><AUTHOR=太宰治><TITLE>走れメロス</TITLE>\nメロスは激怒した。\n<EOS>\n"
    );
    assert_eq!(r.removed_chapters, 1);
    assert_eq!(r.drama_count, 0);
    assert_eq!(r.authors.len(), 1);
    assert_eq!(r.authors[0].works, 1);
}

#[test]
fn dramas_are_marked() {
    let line = "王子　わたしは行きます。\n";
    let text = format!("===== 森鴎外『劇』 =====\n{}", line.repeat(20));
    let r = clean_corpus(&text);
    assert_eq!(
        r.output,
        format!(
            "<BOS><AUTHOR=森鴎外><TITLE>劇</TITLE><DRAMA>\n{}</DRAMA><EOS>\n",
            line.repeat(20)
        )
    );
    assert_eq!(r.drama_count, 1);
    let short = format!("===== 森鴎外『劇』 =====\n{}", line.repeat(19));
    assert_eq!(clean_corpus(&short).drama_count, 0);
}

#[test]
fn a_corpus_is_measured() {
    assert_eq!(count_pattern("漢字《かんじ》と《ルビ》", '《', '》').0, 2);
    assert!(is_stage_line("　（退場）"));
    assert!(!is_stage_line("退場（）"));
    assert_eq!([0, 9, 10, 199, 200, 999, 1999, 2000].map(length_bin), [0, 1, 2, 3, 4, 5, 6, 7]);
    let text = "===== 太宰治『甲』 =====\n一行目\n\n===== 太宰治『乙』 =====\n二行目です\n";
    let r = analyze(text);
    assert_eq!(r.total_lines, 5);
    assert_eq!(r.total_chars, text.chars().count());
    assert_eq!(r.works.len(), 2);
    assert_eq!(r.works[1].title, "===== 太宰治『乙』 =====");
    assert_eq!(r.bins[0], 1);
    assert_eq!(r.single_chars, 0);
    assert_eq!(r.authors.len(), 1);
    assert_eq!(r.authors.get("太宰治").unwrap().works, 2);
    assert!(r.top.is_empty());
}

#[test]
fn lines_of_one_character_are_counted() {
    let r = analyze("王\n\n王子\n　\r\n幕");
    assert_eq!(r.total_lines, 5);
    assert_eq!(r.single_chars, 3);
    assert_eq!(r.bins[1], 4);
    let lines = vec!["幕".to_string(), String::new(), "ab".to_string()];
    assert_eq!(count_single_char_lines(&lines), 1);
    assert_eq!(analyze("").single_chars, 0);
}

#[test]
fn articles_lose_their_last_sections() {
    let mut cut = 0;
    let art = "\n\n東京は都市。  \n\n\n\n歴史は長い。\n\n脚注\n注一\n";
    assert_eq!(clean_article(art, &mut cut), "東京は都市。\n\n歴史は長い。");
    assert_eq!(cut, 1);
    assert_eq!(clean_article("短い。", &mut cut), "短い。");
    assert_eq!(cut, 1);
}

#[test]
fn cleaning_twice_changes_nothing() {
    let articles = [
        "\n\n東京は都市。  \n\n\n\n歴史は長い。\n\n脚注\n注一\n",
        "一\r\n \r\n\r\n二\t\n　出典　\n三",
        "\n \n",
        "脚注",
        "",
    ];
    for art in articles {
        let mut cut = 0;
        let once = clean_article(art, &mut cut);
        let mut again = 0;
        assert_eq!(clean_article(&once, &mut again), once);
        assert_eq!(again, 0);
        assert!(!once.contains("\n\n\n"));
        assert_eq!(once.trim_matches('\n'), once);
        assert!(once.lines().all(|l| l.trim_end() == l));
    }
    let mut full = usize::MAX;
    assert_eq!(clean_article("短い。\n", &mut full), "短い。");
    assert_eq!(full, usize::MAX);
}

#[test]
fn short_articles_are_left_out() {
    let long = "あ".repeat(200);
    let raw = format!("{long}{DOC_SEP}短い{DOC_SEP}{long}い");
    let r = clean_articles(&raw);
    assert_eq!((r.articles_in, r.articles_out, r.dropped_short), (3, 2, 1));
    assert_eq!(r.output, format!("{long}\n\n{long}い"));
}

#[test]
fn articles_are_gathered_with_separators() {
    let texts = vec![Some("甲".to_string()), None, Some(String::new()), Some("乙丙".to_string())];
    let (out, n, chars) = gather_articles(&texts, 0);
    assert_eq!(out, format!("甲{DOC_SEP}乙丙"));
    assert_eq!((n, chars), (2, 3));
    let (out, _, _) = gather_articles(&texts, 5);
    assert_eq!(out, format!("{DOC_SEP}甲{DOC_SEP}乙丙"));
    assert_eq!(shard_name(3, 15), "train-00003-of-00015.parquet");
}

#[test]
fn files_are_read_up_to_the_target() {
    assert!(wants_more(0, 0));
    assert!(wants_more(999_999_999, 14));
    assert!(!wants_more(1_000_000_000, 3));
    assert!(!wants_more(0, 15));
}

#[test]
fn corpora_are_mixed() {
    assert_eq!(mix("甲", "乙", 1), "甲\n\n乙");
    assert_eq!(mix("甲", "乙", 2), "甲\n\n甲\n\n乙");
    assert_eq!(mix("甲", "乙", 0), "乙");
    assert_eq!(stratified_sample("一二三", "四五六", 2, 1), "一二\n\n四");
}

#[test]
fn markers_become_tokens() {
    assert_eq!(new_special_tokens().len(), 10);
    let corpus = "<BOS><AUTHOR=夏目漱石><TITLE>こころ</TITLE>\n私は猫。<EOS>\n";
    let (t, initial, ids) = train_with_markers("私は猫。", corpus, 60);
    assert_eq!(t.vocab_size(), initial + 10);
    assert_eq!(ids, (initial..initial + 10).collect::<Vec<usize>>());
    let encoded = t.encode_long(corpus);
    assert!(header_is_recognized(&encoded, t.bos_id(), initial));
    assert_eq!(encoded[1], ids[4]);
    let plain = CharBpeTokenizer::train("私は猫。", 60);
    assert!(!header_is_recognized(&plain.encode_long("私"), plain.bos_id(), 60));
}
