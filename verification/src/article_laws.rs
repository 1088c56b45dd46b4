//! What holds of every corpus of articles that is gathered, cleaned and mixed.

use vstd::prelude::*;

use crate::corpus_mix;
use crate::text::{self, CharClass};
use crate::text_laws;
use crate::wikipedia;

verus! {

/// The headings of references, notes and links end an article, with white space
/// around them or without.
pub proof fn law_section_headings(line: Seq<char>)
    ensures
        wikipedia::is_trailing(line) <==> {
            let heading = text::trim(line, CharClass::WhiteSpace);
            ||| heading == "脚注"@
            ||| heading == "注釈"@
            ||| heading == "出典"@
            ||| heading == "関連項目"@
            ||| heading == "外部リンク"@
            ||| heading == "参考文献"@
            ||| heading == "関連書籍"@
            ||| heading == "参照"@
            ||| heading == "補注"@
            ||| heading == "脚注・参考文献"@
            ||| heading == "参考"@
            ||| heading == "脚注・出典"@
            ||| heading == "注"@
            ||| heading == "出典・脚注"@
        },
{
    let all = wikipedia::trailing_sections();
    assert(all.len() == 14);
    assert(all[0] == "脚注"@ && all[1] == "注釈"@ && all[2] == "出典"@ && all[3] == "関連項目"@
        && all[4] == "外部リンク"@ && all[5] == "参考文献"@ && all[6] == "関連書籍"@ && all[7] == "参照"@
        && all[8] == "補注"@ && all[9] == "脚注・参考文献"@ && all[10] == "参考"@ && all[11]
        == "脚注・出典"@ && all[12] == "注"@ && all[13] == "出典・脚注"@);
}

/// The line is only white space.
#[verifier::opaque]
pub open spec fn blank(line: Seq<char>) -> bool {
    forall|i: int| 0 <= i < line.len() ==> text::white_space(#[trigger] line[i])
}

/// Where the lines of an article have gone: line `i`, unless it is blank, stands in
/// `kept` at `at[i]`, without the white space at its end. Lines that follow each other
/// still do; between lines that had blank ones between them stands one empty line.
pub open spec fn keeps_in_place(lines: Seq<Seq<char>>, kept: Seq<Seq<char>>, at: Seq<int>) -> bool {
    &&& at.len() == lines.len()
    &&& forall|i: int|
        0 <= i < lines.len() && !blank(#[trigger] lines[i]) ==> 0 <= at[i] < kept.len()
            && kept[at[i]] == text::trim_end(lines[i], CharClass::WhiteSpace)
    &&& forall|i: int, j: int|
        0 <= i < j < lines.len() && !blank(#[trigger] lines[i]) && !blank(#[trigger] lines[j])
            && blank_between(lines, i, j) ==> at[j] == at[i] + (if j == i + 1 {
            1int
        } else {
            2
        }) && (j > i + 1 ==> kept[at[i] + 1].len() == 0)
    &&& forall|i: int|
        0 <= i < lines.len() && !blank(#[trigger] lines[i]) && blank_between(lines, -1, i)
            ==> at[i] == 0
}

/// All lines behind `i` and before `j` are blank.
#[verifier::opaque]
pub open spec fn blank_between(lines: Seq<Seq<char>>, i: int, j: int) -> bool {
    forall|k: int| i < k < j ==> blank(#[trigger] lines[k])
}

/// A line without white space at its end is empty if and only if it is blank.
proof fn lemma_blank(line: Seq<char>)
    ensures
        blank(line) <==> text::trim_end(line, CharClass::WhiteSpace).len() == 0,
{
    reveal(blank);
    let n = text_laws::law_trim_end_takes_the_class_off(line, CharClass::WhiteSpace);
    if blank(line) && n > 0 {
        assert(text::white_space(line[n - 1]));
    }
    if n == 0 {
        assert forall|i: int| 0 <= i < line.len() implies text::white_space(#[trigger] line[i]) by {
            assert(CharClass::WhiteSpace.has(line[i]));
        }
    }
}

/// Lines before the last are blank alike.
proof fn lemma_blank_before(lines: Seq<Seq<char>>, i: int, j: int)
    requires
        -1 <= i,
        j < lines.len(),
    ensures
        blank_between(lines, i, j) == blank_between(lines.drop_last(), i, j),
{
    reveal(blank_between);
    let shorter = lines.drop_last();
    if blank_between(lines, i, j) {
        assert forall|k: int| i < k < j implies blank(#[trigger] shorter[k]) by {
            assert(blank(lines[k]));
        }
    }
    if blank_between(shorter, i, j) {
        assert forall|k: int| i < k < j implies blank(#[trigger] lines[k]) by {
            assert(blank(shorter[k]));
        }
    }
}

/// What ends blank is blank before its end.
proof fn lemma_blank_shorter(lines: Seq<Seq<char>>, i: int, j: int)
    requires
        blank_between(lines, i, j),
        i < j - 1,
    ensures
        blank(lines[j - 1]),
        blank_between(lines, i, j - 1),
{
    reveal(blank_between);
}

/// The tidied lines, with the place of the last line that is not blank.
proof fn lemma_tidied_in_place(lines: Seq<Seq<char>>) -> (at: Seq<int>)
    ensures
        keeps_in_place(lines, wikipedia::tidied(lines), at),
        ({
            let kept = wikipedia::tidied(lines);
            &&& forall|i: int|
                0 <= i < lines.len() && !blank(#[trigger] lines[i]) && blank_between(
                    lines,
                    i,
                    lines.len() as int,
                ) ==> kept.len() == at[i] + (if i == lines.len() - 1 {
                    1int
                } else {
                    2
                }) && (i < lines.len() - 1 ==> kept.last().len() == 0)
            &&& blank_between(lines, -1, lines.len() as int) ==> kept.len() == 0
        }),
    decreases lines.len(),
{
    if lines.len() == 0 {
        Seq::empty()
    } else {
        let n = lines.len() - 1;
        let shorter = lines.drop_last();
        let last = lines.last();
        let before = wikipedia::tidied(shorter);
        let kept = wikipedia::tidied(lines);
        let at0 = lemma_tidied_in_place(shorter);
        let at = at0.push(before.len() as int);
        lemma_blank(last);
        assert(lines[n] == last);
        assert forall|i: int| 0 <= i < lines.len() && !blank(#[trigger] lines[i]) implies 0 <= at[i]
            < kept.len() && kept[at[i]] == text::trim_end(lines[i], CharClass::WhiteSpace) by {
            if i < n {
                assert(shorter[i] == lines[i]);
            }
        }
        assert forall|i: int, j: int|
            0 <= i < j < lines.len() && !blank(#[trigger] lines[i]) && !blank(#[trigger] lines[j])
                && blank_between(lines, i, j) implies at[j] == at[i] + (if j == i + 1 {
            1int
        } else {
            2
        }) && (j > i + 1 ==> kept[at[i] + 1].len() == 0) by {
            assert(shorter[i] == lines[i]);
            lemma_blank_before(lines, i, j);
            if j < n {
                assert(shorter[j] == lines[j]);
            } else {
                assert(kept == before.push(text::trim_end(last, CharClass::WhiteSpace)));
            }
        }
        assert forall|i: int|
            0 <= i < lines.len() && !blank(#[trigger] lines[i]) && blank_between(lines, -1, i)
            implies at[i] == 0 by {
            lemma_blank_before(lines, -1, i);
            if i < n {
                assert(shorter[i] == lines[i]);
            }
        }
        assert forall|i: int|
            0 <= i < lines.len() && !blank(#[trigger] lines[i]) && blank_between(
                lines,
                i,
                lines.len() as int,
            ) implies kept.len() == at[i] + (if i == lines.len() - 1 {
            1int
        } else {
            2
        }) && (i < lines.len() - 1 ==> kept.last().len() == 0) by {
            if i < n {
                assert(shorter[i] == lines[i]);
                lemma_blank_shorter(lines, i, n + 1);
                lemma_blank_before(lines, i, n);
                lemma_blank(lines[i]);
            }
        }
        if blank_between(lines, -1, lines.len() as int) {
            lemma_blank_shorter(lines, -1, n + 1);
            lemma_blank_before(lines, -1, n);
        }
        at
    }
}

/// There is a last line that is not blank, unless all are.
proof fn lemma_last_filled_line(lines: Seq<Seq<char>>)
    ensures
        blank_between(lines, -1, lines.len() as int) || exists|i: int|
            0 <= i < lines.len() && !blank(#[trigger] lines[i]) && blank_between(
                lines,
                i,
                lines.len() as int,
            ),
    decreases lines.len(),
{
    reveal(blank_between);
    if lines.len() > 0 {
        let n = lines.len() - 1;
        let shorter = lines.drop_last();
        lemma_last_filled_line(shorter);
        if !blank(lines[n]) {
            assert(blank_between(lines, n, n + 1));
        } else if blank_between(shorter, -1, n) {
            assert forall|k: int| -1 < k < n + 1 implies blank(#[trigger] lines[k]) by {
                if k < n {
                    assert(lines[k] == shorter[k]);
                }
            }
        } else {
            let i = choose|i: int|
                0 <= i < shorter.len() && !blank(#[trigger] shorter[i]) && blank_between(
                    shorter,
                    i,
                    n,
                );
            assert(lines[i] == shorter[i]);
            assert forall|k: int| i < k < n + 1 implies blank(#[trigger] lines[k]) by {
                if k < n {
                    assert(lines[k] == shorter[k]);
                }
            }
        }
    }
}

/// A cleaned article has all lines of the article before the first heading that ends
/// it, and no others: in their order, without the white space at their ends, and with
/// one empty line where blank lines stood between two of them.
pub proof fn law_cleaned_articles_keep_their_lines(art: Seq<char>) -> (r: (int, Seq<int>))
    ensures
        ({
            let lines = text::lines(art);
            let kept = text::lines(wikipedia::cleaned(art));
            let (n, at) = r;
            &&& 0 <= n <= lines.len()
            &&& forall|i: int| 0 <= i < n ==> !wikipedia::is_trailing(#[trigger] lines[i])
            &&& n < lines.len() ==> wikipedia::is_trailing(lines[n])
            &&& keeps_in_place(lines.take(n), kept, at)
            &&& forall|i: int|
                0 <= i < n && !blank(#[trigger] lines[i]) && blank_between(lines, i, n)
                    ==> kept.len() == at[i] + 1
            &&& blank_between(lines, -1, n) ==> kept.len() == 0
        }),
{
    reveal(blank_between);
    let lines = text::lines(art);
    let n = wikipedia::cut(lines) as int;
    let before = lines.take(n);
    let tidy = wikipedia::tidied(before);
    let kept = wikipedia::kept_lines(art);
    wikipedia::lemma_before_cut(lines);
    wikipedia::law_cleaned_articles_have_the_kept_lines(art);
    let at = lemma_tidied_in_place(before);
    lemma_last_filled_line(before);
    assert forall|i: int| 0 <= i < n implies (#[trigger] before[i]) == lines[i] by {}
    assert(blank_between(before, -1, n) == blank_between(lines, -1, n)) by {
        assert forall|k: int| -1 < k < n implies blank(#[trigger] before[k]) == blank(lines[k]) by {}
        if blank_between(before, -1, n) {
            assert forall|k: int| -1 < k < n implies blank(#[trigger] lines[k]) by {
                assert(blank(before[k]));
            }
        }
        if blank_between(lines, -1, n) {
            assert forall|k: int| -1 < k < n implies blank(#[trigger] before[k]) by {
                assert(blank(lines[k]));
            }
        }
    }
    assert forall|i: int|
        0 <= i < n && !blank(#[trigger] lines[i]) && blank_between(lines, i, n) implies kept.len()
        == at[i] + 1 by {
        assert(before[i] == lines[i]);
        assert(blank_between(before, i, n)) by {
            assert forall|k: int| i < k < n implies blank(#[trigger] before[k]) by {
                assert(blank(lines[k]));
            }
        }
        lemma_blank(lines[i]);
    }
    assert forall|i: int| 0 <= i < before.len() && !blank(#[trigger] before[i]) implies 0 <= at[i]
        < kept.len() && kept[at[i]] == text::trim_end(before[i], CharClass::WhiteSpace) by {
        lemma_blank(before[i]);
        if at[i] >= kept.len() {
            assert(at[i] == tidy.len() - 1);
        }
    }
    assert forall|i: int, j: int|
        0 <= i < j < before.len() && !blank(#[trigger] before[i]) && !blank(#[trigger] before[j])
            && blank_between(before, i, j) implies at[j] == at[i] + (if j == i + 1 {
        1int
    } else {
        2
    }) && (j > i + 1 ==> kept[at[i] + 1].len() == 0) by {
        assert(0 <= at[j] < kept.len());
        assert(at[i] + 1 < tidy.len());
    }
    (n, at)
}

/// An article is kept if and only if what cleaning leaves of it has at least 200
/// characters, whatever was cut off: the kept articles are the cleaned articles, in
/// their order, but for those that are too short.
pub proof fn law_articles_are_kept_by_length_alone(articles: Seq<Seq<char>>)
    ensures
        wikipedia::kept_articles(articles) == articles.map_values(
            |art: Seq<char>| wikipedia::cleaned(art),
        ).filter(|art: Seq<char>| art.len() >= 200),
    decreases articles.len(),
{
    reveal(Seq::filter);
    let all = articles.map_values(|art: Seq<char>| wikipedia::cleaned(art));
    if articles.len() > 0 {
        law_articles_are_kept_by_length_alone(articles.drop_last());
        assert(all.drop_last() =~= articles.drop_last().map_values(
            |art: Seq<char>| wikipedia::cleaned(art),
        ));
        assert(all.last() == wikipedia::cleaned(articles.last()));
    } else {
        assert(wikipedia::kept_articles(articles) =~= all.filter(
            |art: Seq<char>| art.len() >= 200,
        ));
    }
}

/// The article has a heading that ends articles.
pub open spec fn has_heading(art: Seq<char>) -> bool {
    exists|i: int|
        0 <= i < text::lines(art).len() && wikipedia::is_trailing(#[trigger] text::lines(art)[i])
}

/// The articles counted as cut are those with such a heading, kept or not.
pub proof fn law_cut_articles_have_headings(articles: Seq<Seq<char>>)
    ensures
        wikipedia::cut_articles(articles) == articles.filter(
            |art: Seq<char>| has_heading(art),
        ).len(),
    decreases articles.len(),
{
    reveal(Seq::filter);
    if articles.len() > 0 {
        law_cut_articles_have_headings(articles.drop_last());
        wikipedia::law_articles_are_cut_at_headings(articles.last());
    }
}

/// A text that is there and not empty.
pub open spec fn filled(s: Option<String>) -> Option<Seq<char>> {
    match s {
        Some(t) => if t@.len() > 0 {
            Some(t@)
        } else {
            None
        },
        None => None,
    }
}

/// What is gathered: the texts that are there and not empty, in their order, with the
/// separator between each two, and before the first where articles were written
/// before; and their numbers.
pub proof fn law_articles_are_gathered_in_order(texts: Seq<Option<String>>, written: nat)
    ensures
        ({
            let all = texts.filter_map(|s: Option<String>| filled(s));
            let (out, n) = wikipedia::gathered(texts, written);
            &&& n == all.len()
            &&& wikipedia::gathered_chars(texts) == all.flatten().len()
            &&& written > 0 ==> out == all.map_values(
                |t: Seq<char>| "\n\n<DOC_SEP>\n\n"@ + t,
            ).flatten()
            &&& written == 0 ==> out == text::joined_with(all, "\n\n<DOC_SEP>\n\n"@)
        }),
    decreases texts.len(),
{
    let sep = "\n\n<DOC_SEP>\n\n"@;
    let f = |s: Option<String>| filled(s);
    let all = texts.filter_map(f);
    let marked = all.map_values(|t: Seq<char>| sep + t);
    if texts.len() == 0 {
        assert(all =~= Seq::empty());
        assert(marked.flatten() =~= Seq::empty());
    } else {
        let shorter = texts.drop_last();
        let before = shorter.filter_map(f);
        law_articles_are_gathered_in_order(shorter, written);
        match filled(texts.last()) {
            Some(t) => {
                assert(all =~= before.push(t));
                before.lemma_flatten_push(t);
                let front = before.map_values(|t: Seq<char>| sep + t);
                assert(marked =~= front.push(sep + t));
                front.lemma_flatten_push(sep + t);
                assert(all.drop_last() =~= before);
                let (out, _) = wikipedia::gathered(shorter, written);
                assert(out + sep + t =~= out + (sep + t));
                if before.len() == 0 {
                    assert(text::joined_with(before, sep) =~= Seq::empty());
                    assert(Seq::<char>::empty() + t =~= t);
                }
            },
            None => {
                assert(all =~= before);
            },
        }
    }
}

/// Two batches are gathered as one would be: what the second appends goes on where
/// the first ended.
pub proof fn law_batches_follow_each_other(
    a: Seq<Option<String>>,
    b: Seq<Option<String>>,
    written: nat,
)
    ensures
        ({
            let first = wikipedia::gathered(a, written);
            let second = wikipedia::gathered(b, written + first.1);
            &&& wikipedia::gathered(a + b, written).0 == first.0 + second.0
            &&& wikipedia::gathered(a + b, written).1 == first.1 + second.1
        }),
    decreases b.len(),
{
    let first = wikipedia::gathered(a, written);
    if b.len() == 0 {
        assert(a + b =~= a);
        assert(first.0 + Seq::<char>::empty() =~= first.0);
    } else {
        law_batches_follow_each_other(a, b.drop_last(), written);
        assert((a + b).drop_last() =~= a + b.drop_last());
        let second = wikipedia::gathered(b.drop_last(), written + first.1);
        match b.last() {
            Some(s) => {
                assert(first.0 + second.0 + wikipedia::DOC_SEP@ + s@ =~= first.0 + (second.0
                    + wikipedia::DOC_SEP@ + s@));
                assert(first.0 + second.0 + s@ =~= first.0 + (second.0 + s@));
            },
            None => {},
        }
    }
}

/// A corpus repeated: as often as asked for, each time with an empty line behind it.
pub proof fn law_repeating_adds_up(s: Seq<char>, a: nat, b: nat)
    ensures
        corpus_mix::repeated(s, 0).len() == 0,
        corpus_mix::repeated(s, 1) == s + "\n\n"@,
        corpus_mix::repeated(s, a + b) == corpus_mix::repeated(s, a) + corpus_mix::repeated(s, b),
    decreases b,
{
    reveal_with_fuel(corpus_mix::repeated, 2);
    assert(corpus_mix::repeated(s, 1) =~= s + "\n\n"@);
    let first = corpus_mix::repeated(s, a);
    if b == 0 {
        assert(first + corpus_mix::repeated(s, 0) =~= first);
    } else {
        law_repeating_adds_up(s, a, (b - 1) as nat);
        let rest = corpus_mix::repeated(s, (b - 1) as nat);
        assert(corpus_mix::repeated(s, a + b) == corpus_mix::repeated(s, (a + b - 1) as nat) + s
            + corpus_mix::SEPARATOR@);
        assert(first + rest + s + corpus_mix::SEPARATOR@ =~= first + (rest + s
            + corpus_mix::SEPARATOR@));
    }
}

/// The beginning of a corpus starts it, and is as long as asked for or as there is.
pub proof fn law_a_head_starts_the_text(s: Seq<char>, n: nat)
    ensures
        corpus_mix::head(s, n as int).is_prefix_of(s),
        corpus_mix::head(s, n as int).len() == vstd::math::min(n as int, s.len() as int),
{
    let k = vstd::math::min(n as int, s.len() as int);
    assert(corpus_mix::head(s, n as int) =~= s.take(k));
}

/// The authors whose works have a marker of their own.
pub open spec fn marked_authors() -> Seq<Seq<char>> {
    seq![
        "夏目漱石"@,
        "太宰治"@,
        "森鴎外"@,
        "宮沢賢治"@,
        "中島敦"@,
        "国木田独歩"@,
    ]
}

/// The markers are those that cleaned works are written with: around titles, around
/// dramas, and in front of the works of these authors; and there are no others.
pub proof fn law_markers_are_those_of_works(t: Seq<char>)
    ensures
        corpus_mix::markers().contains(t) <==> t == "<TITLE>"@ || t == "</TITLE>"@ || t
            == "<DRAMA>"@ || t == "</DRAMA>"@ || exists|i: int|
            0 <= i < marked_authors().len() && t == "<AUTHOR="@ + #[trigger] marked_authors()[i]
                + ">"@,
{
    let all = corpus_mix::markers();
    let authors = marked_authors();
    assert(all.len() == 10 && authors.len() == 6);
    assert(all[0] == "<TITLE>"@);
    assert(all[1] == "</TITLE>"@);
    assert(all[2] == "<DRAMA>"@);
    assert(all[3] == "</DRAMA>"@);
    reveal_strlit("<AUTHOR=");
    reveal_strlit(">");
    reveal_strlit("夏目漱石");
    reveal_strlit("<AUTHOR=夏目漱石>");
    assert("<AUTHOR=夏目漱石>"@ =~= "<AUTHOR="@ + "夏目漱石"@ + ">"@);
    assert(all[4] == "<AUTHOR="@ + "夏目漱石"@ + ">"@);
    reveal_strlit("太宰治");
    reveal_strlit("<AUTHOR=太宰治>");
    assert("<AUTHOR=太宰治>"@ =~= "<AUTHOR="@ + "太宰治"@ + ">"@);
    assert(all[5] == "<AUTHOR="@ + "太宰治"@ + ">"@);
    reveal_strlit("森鴎外");
    reveal_strlit("<AUTHOR=森鴎外>");
    assert("<AUTHOR=森鴎外>"@ =~= "<AUTHOR="@ + "森鴎外"@ + ">"@);
    assert(all[6] == "<AUTHOR="@ + "森鴎外"@ + ">"@);
    reveal_strlit("宮沢賢治");
    reveal_strlit("<AUTHOR=宮沢賢治>");
    assert("<AUTHOR=宮沢賢治>"@ =~= "<AUTHOR="@ + "宮沢賢治"@ + ">"@);
    assert(all[7] == "<AUTHOR="@ + "宮沢賢治"@ + ">"@);
    reveal_strlit("中島敦");
    reveal_strlit("<AUTHOR=中島敦>");
    assert("<AUTHOR=中島敦>"@ =~= "<AUTHOR="@ + "中島敦"@ + ">"@);
    assert(all[8] == "<AUTHOR="@ + "中島敦"@ + ">"@);
    reveal_strlit("国木田独歩");
    reveal_strlit("<AUTHOR=国木田独歩>");
    assert("<AUTHOR=国木田独歩>"@ =~= "<AUTHOR="@ + "国木田独歩"@ + ">"@);
    assert(all[9] == "<AUTHOR="@ + "国木田独歩"@ + ">"@);
    assert forall|i: int| 0 <= i < 6 implies all[4 + i] == "<AUTHOR="@ + #[trigger] authors[i]
        + ">"@ by {
        assert(i == 0 || i == 1 || i == 2 || i == 3 || i == 4 || i == 5);
    }
    if all.contains(t) {
        let k = choose|k: int| 0 <= k < all.len() && all[k] == t;
        if k >= 4 {
            assert(all[4 + (k - 4)] == "<AUTHOR="@ + authors[k - 4] + ">"@);
        }
    }
}

} // verus!
