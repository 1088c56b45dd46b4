//! Gathering and cleaning a corpus of Wikipedia articles.
//!
//! In the raw corpus articles stand with `DOC_SEP` between each two. In the
//! cleaned one an empty line stands between them.

use vstd::prelude::*;

use crate::text::{
    self, char_count, chars_of, contains_text, join_with, padded_decimal_of, split_at_text,
    split_lines, string_of, trimmed, trimmed_end, CharClass,
};

verus! {

/// What stands between two articles of the raw corpus.
pub const DOC_SEP: &'static str = "\n\n<DOC_SEP>\n\n";

/// Shorter articles are left out.
pub const MIN_CHARS: usize = 200;

/// No more files are read once this many characters have been gathered.
pub const TARGET_CHARS: usize = 1_000_000_000;

/// The number of files of the data set.
pub const NUM_FILES: usize = 15;

/// Tells whether another file is read: as long as the characters gathered stay below
/// the target and files are left.
pub fn wants_more(total: u128, files: usize) -> (r: bool)
    ensures
        r == (total < TARGET_CHARS && files < NUM_FILES),
{
    total < TARGET_CHARS as u128 && files < NUM_FILES
}

/// The headings of the sections that end an article.
pub open spec fn trailing_sections() -> Seq<Seq<char>> {
    seq![
        "脚注"@,
        "注釈"@,
        "出典"@,
        "関連項目"@,
        "外部リンク"@,
        "参考文献"@,
        "関連書籍"@,
        "参照"@,
        "補注"@,
        "脚注・参考文献"@,
        "参考"@,
        "脚注・出典"@,
        "注"@,
        "出典・脚注"@,
    ]
}

/// The headings of the sections that end an article.
pub fn trailing_section_names() -> (r: Vec<String>)
    ensures
        text::texts(r@) == trailing_sections(),
{
    let mut r: Vec<String> = Vec::new();
    r.push("脚注".to_owned());
    r.push("注釈".to_owned());
    r.push("出典".to_owned());
    r.push("関連項目".to_owned());
    r.push("外部リンク".to_owned());
    r.push("参考文献".to_owned());
    r.push("関連書籍".to_owned());
    r.push("参照".to_owned());
    r.push("補注".to_owned());
    r.push("脚注・参考文献".to_owned());
    r.push("参考".to_owned());
    r.push("脚注・出典".to_owned());
    r.push("注".to_owned());
    r.push("出典・脚注".to_owned());
    assert(text::texts(r@) =~= trailing_sections());
    r
}

/// The line is the heading of a section that ends an article.
pub open spec fn is_trailing(line: Seq<char>) -> bool {
    trailing_sections().contains(text::trim(line, CharClass::WhiteSpace))
}

/// The number of lines before the first such heading.
pub open spec fn cut(lines: Seq<Seq<char>>) -> nat
    decreases lines.len(),
{
    if lines.len() == 0 || is_trailing(lines[0]) {
        0
    } else {
        1 + cut(lines.skip(1))
    }
}

/// The lines without white space at their ends, without empty lines in front,
/// and with one empty line for several.
pub open spec fn tidied(lines: Seq<Seq<char>>) -> Seq<Seq<char>>
    decreases lines.len(),
{
    if lines.len() == 0 {
        Seq::empty()
    } else {
        let before = tidied(lines.drop_last());
        let line = text::trim_end(lines.last(), CharClass::WhiteSpace);
        if line.len() == 0 && (before.len() == 0 || before.last().len() == 0) {
            before
        } else {
            before.push(line)
        }
    }
}

/// A list of lines without an empty last line.
pub open spec fn unended(lines: Seq<Seq<char>>) -> Seq<Seq<char>> {
    if lines.len() > 0 && lines.last().len() == 0 {
        lines.drop_last()
    } else {
        lines
    }
}

/// The lines of an article that are kept.
pub open spec fn kept_lines(art: Seq<char>) -> Seq<Seq<char>> {
    let lines = text::lines(art);
    unended(tidied(lines.take(cut(lines) as int)))
}

/// The article without the sections that end it, without white space at the
/// ends of lines, and with single empty lines only within.
pub open spec fn cleaned(art: Seq<char>) -> Seq<char> {
    text::joined_with(kept_lines(art), "\n"@)
}

/// A section that ends articles was cut off.
pub open spec fn was_cut(art: Seq<char>) -> bool {
    cut(text::lines(art)) < text::lines(art).len()
}

/// The cut is found at the first heading.
proof fn lemma_cut(lines: Seq<Seq<char>>, n: int)
    requires
        0 <= n <= lines.len(),
        forall|i: int| 0 <= i < n ==> !is_trailing(#[trigger] lines[i]),
        n < lines.len() ==> is_trailing(lines[n]),
    ensures
        cut(lines) == n,
    decreases n,
{
    if n > 0 {
        assert forall|i: int| 0 <= i < n - 1 implies !is_trailing(#[trigger] lines.skip(1)[i]) by {
            assert(lines.skip(1)[i] == lines[i + 1]);
        }
        if n < lines.len() {
            assert(lines.skip(1)[n - 1] == lines[n]);
        }
        assert(!is_trailing(lines[0]));
        lemma_cut(lines.skip(1), n - 1);
    }
}

/// A line without white space at its end.
fn without_trailing_space(line: &str) -> (r: String)
    ensures
        r@ == text::trim_end(line@, CharClass::WhiteSpace),
{
    let v: Vec<char> = chars_of(line);
    let n: usize = v.len();
    let end: usize = trimmed_end(&v, 0, n, CharClass::WhiteSpace);
    assert(v@.subrange(0, n as int) =~= line@);
    string_of(&v, 0, end)
}

/// Tells whether a line is one of the headings in `names`.
fn is_trailing_line(line: &str, names: &Vec<String>) -> (r: bool)
    requires
        text::texts(names@) == trailing_sections(),
    ensures
        r == is_trailing(line@),
{
    let heading: String = trimmed(line, CharClass::WhiteSpace);
    contains_text(names, &heading)
}

/// Cleans an article, and counts it if a section was cut off.
pub fn clean_article(art: &str, truncated_count: &mut usize) -> (r: String)
    requires
        was_cut(art@) ==> *old(truncated_count) < usize::MAX,
    ensures
        r@ == cleaned(art@),
        *final(truncated_count) == *old(truncated_count) + (if was_cut(art@) {
            1int
        } else {
            0int
        }),
{
    let lines: Vec<String> = split_lines(art);
    let names: Vec<String> = trailing_section_names();
    let ghost all = text::texts(lines@);
    let n: usize = lines.len();
    let mut end: usize = 0;
    while end < n && !is_trailing_line(lines[end].as_str(), &names)
        invariant
            end <= n == lines@.len(),
            all == text::texts(lines@),
            text::texts(names@) == trailing_sections(),
            forall|i: int| 0 <= i < end ==> !is_trailing(#[trigger] all[i]),
        decreases n - end,
    {
        assert(all[end as int] == lines@[end as int]@);
        end += 1;
    }
    proof {
        if end < n {
            assert(all[end as int] == lines@[end as int]@);
        }
        lemma_cut(all, end as int);
    }
    if end < n {
        *truncated_count = *truncated_count + 1;
    }
    let ghost kept = all.take(end as int);
    let mut tidy: Vec<String> = Vec::new();
    let mut i: usize = 0;
    assert(kept.take(0) =~= Seq::empty());
    assert(text::texts(tidy@) =~= Seq::empty());
    while i < end
        invariant
            i <= end <= n == lines@.len(),
            all == text::texts(lines@),
            kept == all.take(end as int),
            text::texts(tidy@) == tidied(kept.take(i as int)),
        decreases end - i,
    {
        let ghost before = text::texts(tidy@);
        let line: String = without_trailing_space(lines[i].as_str());
        proof {
            assert(kept.take(i + 1).drop_last() =~= kept.take(i as int));
            assert(before.len() > 0 ==> before.last() == tidy@.last()@);
        }
        if !(line.as_str().is_empty() && (tidy.len() == 0 || tidy[tidy.len() - 1].as_str().is_empty())) {
            tidy.push(line);
            assert(text::texts(tidy@) =~= before.push(line@));
        }
        i += 1;
    }
    assert(kept.take(i as int) =~= kept);
    if tidy.len() > 0 && tidy[tidy.len() - 1].as_str().is_empty() {
        let ghost before = text::texts(tidy@);
        tidy.pop();
        assert(text::texts(tidy@) =~= before.drop_last());
    }
    join_with(&tidy, "\n")
}

/// The articles that are kept, cleaned: those of at least `MIN_CHARS`.
pub open spec fn kept_articles(articles: Seq<Seq<char>>) -> Seq<Seq<char>>
    decreases articles.len(),
{
    if articles.len() == 0 {
        Seq::empty()
    } else if cleaned(articles.last()).len() >= MIN_CHARS {
        kept_articles(articles.drop_last()).push(cleaned(articles.last()))
    } else {
        kept_articles(articles.drop_last())
    }
}

/// The number of articles of which a section was cut off.
pub open spec fn cut_articles(articles: Seq<Seq<char>>) -> nat
    decreases articles.len(),
{
    if articles.len() == 0 {
        0
    } else {
        cut_articles(articles.drop_last()) + (if was_cut(articles.last()) {
            1nat
        } else {
            0
        })
    }
}

proof fn lemma_article_counts(articles: Seq<Seq<char>>)
    ensures
        kept_articles(articles).len() <= articles.len(),
        cut_articles(articles) <= articles.len(),
    decreases articles.len(),
{
    if articles.len() > 0 {
        lemma_article_counts(articles.drop_last());
    }
}

/// What cleaning a corpus of articles gives.
pub struct CleanArticles {
    /// The cleaned corpus.
    pub output: String,
    /// The number of articles in the raw corpus.
    pub articles_in: usize,
    /// The number of articles kept.
    pub articles_out: usize,
    /// The number of articles left out for being short.
    pub dropped_short: usize,
    /// The number of articles of which a section was cut off.
    pub truncated: usize,
}

/// Cleans a raw corpus of articles.
pub fn clean_articles(raw: &str) -> (r: CleanArticles)
    ensures
        ({
            let articles = text::pieces(raw@, DOC_SEP@);
            &&& r.output@ == text::joined_with(kept_articles(articles), "\n\n"@)
            &&& r.articles_in == articles.len()
            &&& r.articles_out == kept_articles(articles).len()
            &&& r.dropped_short == articles.len() - kept_articles(articles).len()
            &&& r.truncated == cut_articles(articles)
        }),
{
    proof {
        reveal_strlit("\n\n<DOC_SEP>\n\n");
    }
    let articles: Vec<String> = split_at_text(raw, DOC_SEP);
    let ghost all = text::texts(articles@);
    let n: usize = articles.len();
    let mut kept: Vec<String> = Vec::new();
    let mut truncated: usize = 0;
    let mut i: usize = 0;
    assert(all.take(0) =~= Seq::empty());
    assert(text::texts(kept@) =~= Seq::empty());
    while i < n
        invariant
            i <= n == articles@.len(),
            all == text::texts(articles@),
            text::texts(kept@) == kept_articles(all.take(i as int)),
            truncated == cut_articles(all.take(i as int)),
        decreases n - i,
    {
        let ghost before = text::texts(kept@);
        proof {
            lemma_article_counts(all.take(i as int));
            assert(all.take(i + 1).drop_last() =~= all.take(i as int));
        }
        let art: String = clean_article(articles[i].as_str(), &mut truncated);
        if char_count(art.as_str()) >= MIN_CHARS {
            kept.push(art);
            assert(text::texts(kept@) =~= before.push(art@));
        }
        i += 1;
    }
    proof {
        assert(all.take(i as int) =~= all);
        lemma_article_counts(all);
        assert(text::texts(kept@).len() == kept@.len());
    }
    let output: String = join_with(&kept, "\n\n");
    CleanArticles {
        output,
        articles_in: n,
        articles_out: kept.len(),
        dropped_short: n - kept.len(),
        truncated,
    }
}

/// Articles as the raw corpus takes them in. `None` and empty texts are no
/// articles. A separator stands before each but the very first.
pub open spec fn gathered(texts: Seq<Option<String>>, written: nat) -> (Seq<char>, nat)
    decreases texts.len(),
{
    if texts.len() == 0 {
        (Seq::empty(), 0)
    } else {
        let (out, n) = gathered(texts.drop_last(), written);
        match texts.last() {
            Some(s) => if s@.len() == 0 {
                (out, n)
            } else if written + n > 0 {
                (out + DOC_SEP@ + s@, n + 1)
            } else {
                (out + s@, n + 1)
            },
            None => (out, n),
        }
    }
}

/// The characters of all articles.
pub open spec fn gathered_chars(texts: Seq<Option<String>>) -> nat
    decreases texts.len(),
{
    if texts.len() == 0 {
        0
    } else {
        gathered_chars(texts.drop_last()) + (match texts.last() {
            Some(s) => s@.len(),
            None => 0,
        })
    }
}

proof fn lemma_gathered(texts: Seq<Option<String>>, written: nat)
    ensures
        gathered(texts, written).1 <= texts.len(),
        gathered_chars(texts) <= gathered(texts, written).0.len(),
    decreases texts.len(),
{
    if texts.len() > 0 {
        lemma_gathered(texts.drop_last(), written);
    }
}

/// Gathers the texts of one batch. `written` is the number of articles that the
/// raw corpus holds so far. Returns what to append, the number of articles in it,
/// and the number of their characters.
pub fn gather_articles(texts: &Vec<Option<String>>, written: usize) -> (r: (String, usize, u128))
    ensures
        r.0@ == gathered(texts@, written as nat).0,
        r.1 == gathered(texts@, written as nat).1,
        r.2 == gathered_chars(texts@),
{
    let mut out: String = String::new();
    let mut articles: usize = 0;
    let mut chars: u128 = 0;
    let mut i: usize = 0;
    assert(texts@.take(0) =~= Seq::empty());
    while i < texts.len()
        invariant
            i <= texts@.len(),
            out@ == gathered(texts@.take(i as int), written as nat).0,
            articles == gathered(texts@.take(i as int), written as nat).1,
            chars == gathered_chars(texts@.take(i as int)),
            chars <= i * usize::MAX,
        decreases texts@.len() - i,
    {
        let ghost before = out@;
        proof {
            lemma_gathered(texts@.take(i as int), written as nat);
            assert(texts@.take(i + 1).drop_last() =~= texts@.take(i as int));
            assert(i * usize::MAX + usize::MAX <= u128::MAX) by (nonlinear_arith)
                requires
                    i < usize::MAX,
            ;
            assert((i + 1) * usize::MAX == i * usize::MAX + usize::MAX) by (nonlinear_arith);
        }
        match &texts[i] {
            None => {},
            Some(s) => {
                let n: usize = char_count(s.as_str());
                if n > 0 {
                    if written > 0 || articles > 0 {
                        out.append(DOC_SEP);
                    }
                    out.append(s.as_str());
                    articles = articles + 1;
                    chars = chars + n as u128;
                }
            },
        }
        i += 1;
    }
    assert(texts@.take(i as int) =~= texts@);
    (out, articles, chars)
}

/// The name of a file of the data set.
pub fn shard_name(index: usize, of: usize) -> (r: String)
    ensures
        r@ == "train-"@ + text::zero_padded(text::decimal(index as nat), 5) + "-of-"@
            + text::zero_padded(text::decimal(of as nat), 5) + ".parquet"@,
{
    let mut r: String = "train-".to_owned();
    r.append(padded_decimal_of(index as u64, 5).as_str());
    r.append("-of-");
    r.append(padded_decimal_of(of as u64, 5).as_str());
    r.append(".parquet");
    r
}

/// The last line of a cleaned article is not empty, nor is the first, and no two
/// empty lines stand next to each other.
pub proof fn law_cleaned_articles_are_tidy(lines: Seq<Seq<char>>)
    ensures
        ({
            let t = unended(tidied(lines));
            &&& t.len() > 0 ==> t[0].len() > 0 && t.last().len() > 0
            &&& forall|i: int|
                0 <= i < t.len() - 1 ==> !((#[trigger] t[i]).len() == 0 && t[i + 1].len() == 0)
        }),
{
    lemma_tidied(lines);
    let t = tidied(lines);
    let u = unended(t);
    if t.len() > 0 && t.last().len() == 0 && u.len() > 0 {
        assert(u.last() == t[t.len() - 2]);
        assert(!(t[t.len() - 2].len() == 0 && t[t.len() - 2 + 1].len() == 0));
    }
    assert forall|i: int| 0 <= i < u.len() - 1 implies !((#[trigger] u[i]).len() == 0 && u[i
        + 1].len() == 0) by {
        assert(u[i] == t[i] && u[i + 1] == t[i + 1]);
    }
}

proof fn lemma_tidied(lines: Seq<Seq<char>>)
    ensures
        tidied(lines).len() > 0 ==> tidied(lines)[0].len() > 0,
        forall|i: int|
            0 <= i < tidied(lines).len() - 1 ==> !((#[trigger] tidied(lines)[i]).len() == 0
                && tidied(lines)[i + 1].len() == 0),
    decreases lines.len(),
{
    if lines.len() > 0 {
        let before = tidied(lines.drop_last());
        let after = tidied(lines);
        lemma_tidied(lines.drop_last());
        assert forall|i: int| 0 <= i < after.len() - 1 implies !((#[trigger] after[i]).len() == 0
            && after[i + 1].len() == 0) by {
            assert(after[i] == before[i]);
            if i + 1 < before.len() {
                assert(after[i + 1] == before[i + 1]);
            } else {
                assert(before.last() == before[i]);
            }
        }
    }
}

/// The line holds no newline, has no white space at its end, and is no heading of
/// a section that ends an article.
pub open spec fn neat(line: Seq<char>) -> bool {
    &&& text::unbroken(line)
    &&& line.len() > 0 ==> !text::white_space(line.last())
    &&& !is_trailing(line)
}

/// Lines before the cut are neat once they are tidied.
proof fn lemma_tidied_lines_are_neat(lines: Seq<Seq<char>>)
    requires
        forall|i: int|
            0 <= i < lines.len() ==> text::unbroken(#[trigger] lines[i]) && !is_trailing(lines[i]),
    ensures
        forall|i: int| 0 <= i < tidied(lines).len() ==> neat(#[trigger] tidied(lines)[i]),
    decreases lines.len(),
{
    if lines.len() > 0 {
        let shorter = lines.drop_last();
        let last = lines.last();
        let line = text::trim_end(last, CharClass::WhiteSpace);
        assert forall|i: int| 0 <= i < shorter.len() implies text::unbroken(#[trigger] shorter[i])
            && !is_trailing(shorter[i]) by {
            assert(shorter[i] == lines[i]);
        }
        lemma_tidied_lines_are_neat(shorter);
        assert(last == lines[lines.len() - 1]);
        text::lemma_trim_end(last, CharClass::WhiteSpace);
        text::lemma_trim_of_trim_end(last, CharClass::WhiteSpace);
        assert forall|i: int| 0 <= i < line.len() implies line[i] != '\n' by {
            assert(line[i] == last[i]);
        }
        assert(neat(line));
        assert forall|i: int| 0 <= i < tidied(lines).len() implies neat(
            #[trigger] tidied(lines)[i],
        ) by {
            if i < tidied(shorter).len() {
                assert(tidied(lines)[i] == tidied(shorter)[i]);
            }
        }
    }
}

/// No heading stands before the cut, and one stands at it.
pub proof fn lemma_before_cut(lines: Seq<Seq<char>>)
    ensures
        cut(lines) <= lines.len(),
        forall|i: int| 0 <= i < cut(lines) ==> !is_trailing(#[trigger] lines[i]),
        cut(lines) < lines.len() ==> is_trailing(lines[cut(lines) as int]),
    decreases lines.len(),
{
    if lines.len() > 0 && !is_trailing(lines[0]) {
        let rest = lines.skip(1);
        lemma_before_cut(rest);
        assert forall|i: int| 0 <= i < cut(lines) implies !is_trailing(#[trigger] lines[i]) by {
            if i > 0 {
                assert(lines[i] == rest[i - 1]);
            }
        }
    }
}

/// Tidy lines stay as they are.
proof fn lemma_tidy_lines_stay(lines: Seq<Seq<char>>)
    requires
        lines.len() > 0 ==> lines[0].len() > 0,
        forall|i: int| 0 <= i < lines.len() ==> neat(#[trigger] lines[i]),
        forall|i: int|
            0 <= i < lines.len() - 1 ==> !((#[trigger] lines[i]).len() == 0 && lines[i + 1].len()
                == 0),
    ensures
        tidied(lines) == lines,
    decreases lines.len(),
{
    if lines.len() > 0 {
        let shorter = lines.drop_last();
        let n = shorter.len() as int;
        assert forall|i: int| 0 <= i < n implies neat(#[trigger] shorter[i]) by {
            assert(shorter[i] == lines[i]);
        }
        assert forall|i: int| 0 <= i < n - 1 implies !((#[trigger] shorter[i]).len() == 0
            && shorter[i + 1].len() == 0) by {
            assert(shorter[i] == lines[i] && shorter[i + 1] == lines[i + 1]);
        }
        lemma_tidy_lines_stay(shorter);
        assert(neat(lines[n]));
        if n > 0 {
            assert(!(lines[n - 1].len() == 0 && lines[n - 1 + 1].len() == 0));
            assert(shorter.last() == lines[n - 1]);
        }
        assert(tidied(lines) =~= lines);
    }
}

/// The lines kept of an article are neat and tidy.
proof fn lemma_kept_lines(art: Seq<char>)
    ensures
        ({
            let kept = kept_lines(art);
            &&& kept.len() > 0 ==> kept[0].len() > 0 && kept.last().len() > 0
            &&& forall|i: int| 0 <= i < kept.len() ==> neat(#[trigger] kept[i])
            &&& forall|i: int|
                0 <= i < kept.len() - 1 ==> !((#[trigger] kept[i]).len() == 0 && kept[i + 1].len()
                    == 0)
        }),
{
    let lines = text::lines(art);
    let before = lines.take(cut(lines) as int);
    let kept = kept_lines(art);
    lemma_before_cut(lines);
    text::lemma_lines_are_unbroken(art);
    assert forall|i: int| 0 <= i < before.len() implies text::unbroken(#[trigger] before[i])
        && !is_trailing(before[i]) by {
        assert(before[i] == lines[i]);
    }
    lemma_tidied_lines_are_neat(before);
    law_cleaned_articles_are_tidy(before);
    assert forall|i: int| 0 <= i < kept.len() implies neat(#[trigger] kept[i]) by {
        assert(kept[i] == tidied(before)[i]);
    }
}

/// The lines of a cleaned article are those that were kept, and each of them is
/// neat.
pub proof fn law_cleaned_articles_have_the_kept_lines(art: Seq<char>)
    ensures
        text::lines(cleaned(art)) == kept_lines(art),
        forall|i: int|
            0 <= i < text::lines(cleaned(art)).len() ==> neat(
                #[trigger] text::lines(cleaned(art))[i],
            ),
{
    let kept = kept_lines(art);
    lemma_kept_lines(art);
    assert forall|i: int| 0 <= i < kept.len() implies text::unbroken(#[trigger] kept[i])
        && text::without_return(kept[i]) == kept[i] by {
        assert(neat(kept[i]));
    }
    text::lemma_lines_of_joined(kept);
}

/// Cleaning a cleaned article changes nothing, and cuts nothing off.
pub proof fn law_cleaning_twice_changes_nothing(art: Seq<char>)
    ensures
        cleaned(cleaned(art)) == cleaned(art),
        !was_cut(cleaned(art)),
{
    let kept = kept_lines(art);
    lemma_kept_lines(art);
    law_cleaned_articles_have_the_kept_lines(art);
    assert forall|i: int| 0 <= i < kept.len() implies !is_trailing(#[trigger] kept[i]) by {
        assert(neat(kept[i]));
    }
    lemma_cut(kept, kept.len() as int);
    assert(kept.take(kept.len() as int) =~= kept);
    lemma_tidy_lines_stay(kept);
}

/// An article is cut if and only if one of its lines is the heading of a section
/// that ends articles.
pub proof fn law_articles_are_cut_at_headings(art: Seq<char>)
    ensures
        was_cut(art) <==> exists|i: int|
            0 <= i < text::lines(art).len() && is_trailing(#[trigger] text::lines(art)[i]),
{
    lemma_before_cut(text::lines(art));
}

/// Lines joined with newlines have no three newlines in a row.
proof fn lemma_joined_lines(list: Seq<Seq<char>>)
    requires
        list.len() > 0 ==> list[0].len() > 0,
        forall|i: int| 0 <= i < list.len() ==> text::unbroken(#[trigger] list[i]),
        forall|i: int|
            0 <= i < list.len() - 1 ==> !((#[trigger] list[i]).len() == 0 && list[i + 1].len()
                == 0),
    ensures
        ({
            let s = text::joined_with(list, "\n"@);
            &&& list.len() == 0 <==> s.len() == 0
            &&& s.len() > 0 ==> s[0] != '\n' && (s.last() == '\n' <==> list.last().len() == 0)
            &&& s.len() > 1 ==> !(s[s.len() - 2] == '\n' && s.last() == '\n')
            &&& forall|i: int|
                0 <= i < s.len() - 2 ==> !(#[trigger] s[i] == '\n' && s[i + 1] == '\n' && s[i + 2]
                    == '\n')
        }),
    decreases list.len(),
{
    reveal_strlit("\n");
    let s = text::joined_with(list, "\n"@);
    if list.len() == 1 {
        assert(text::unbroken(list[0]));
    } else if list.len() > 1 {
        let shorter = list.drop_last();
        let last = list.last();
        let t = text::joined_with(shorter, "\n"@);
        assert forall|i: int| 0 <= i < shorter.len() implies text::unbroken(#[trigger] shorter[i]) by {
            assert(shorter[i] == list[i]);
        }
        assert forall|i: int| 0 <= i < shorter.len() - 1 implies !((#[trigger] shorter[i]).len()
            == 0 && shorter[i + 1].len() == 0) by {
            assert(shorter[i] == list[i] && shorter[i + 1] == list[i + 1]);
        }
        lemma_joined_lines(shorter);
        let n = list.len() - 2;
        assert(!(list[n].len() == 0 && list[n + 1].len() == 0));
        assert(shorter.last() == list[n]);
        assert(text::unbroken(list[n + 1]));
        assert(s =~= t + seq!['\n'] + last);
        assert forall|i: int| 0 <= i < s.len() implies s[i] == (if i < t.len() {
            t[i]
        } else if i == t.len() {
            '\n'
        } else {
            last[i - t.len() - 1]
        }) by {}
    }
}

/// A cleaned article neither starts nor ends with a newline, and has no three
/// newlines in a row.
pub proof fn law_cleaned_articles_have_single_empty_lines(art: Seq<char>)
    ensures
        cleaned(art).len() > 0 ==> cleaned(art)[0] != '\n' && cleaned(art).last() != '\n',
        forall|i: int|
            0 <= i < cleaned(art).len() - 2 ==> !(#[trigger] cleaned(art)[i] == '\n' && cleaned(
                art,
            )[i + 1] == '\n' && cleaned(art)[i + 2] == '\n'),
{
    let kept = kept_lines(art);
    lemma_kept_lines(art);
    assert forall|i: int| 0 <= i < kept.len() implies text::unbroken(#[trigger] kept[i]) by {
        assert(neat(kept[i]));
    }
    lemma_joined_lines(kept);
}

} // verus!
