//! What holds of every corpus of Aozora Bunko works that is split and cleaned.

use vstd::prelude::*;

use crate::aozora::{self, AuthorShare, WorkModel};
use crate::table;
use crate::text::{self, CharClass};
use crate::text_laws;

verus! {

/// The line starts with five bars.
pub open spec fn starts_a_work(line: Seq<char>) -> bool {
    line.len() >= 5 && forall|i: int| 0 <= i < 5 ==> #[trigger] line[i] == '='
}

/// A header line is one that starts with five bars.
pub proof fn law_headers_start_with_bars(line: Seq<char>)
    ensures
        aozora::header_line(line) <==> starts_a_work(line),
{
    reveal_strlit("=====");
    let p = "====="@;
    assert(p.len() == 5);
    if aozora::header_line(line) {
        assert forall|i: int| 0 <= i < 5 implies #[trigger] line[i] == '=' by {
            assert(line.take(5)[i] == p[i]);
        }
    }
    if starts_a_work(line) {
        assert(line.take(5) =~= p);
    }
}

/// `at` lists the header lines, in order.
pub open spec fn lists_headers(at: Seq<int>, lines: Seq<Seq<char>>) -> bool {
    &&& forall|i: int, j: int| 0 <= i < j < at.len() ==> #[trigger] at[i] < #[trigger] at[j]
    &&& forall|k: int| 0 <= k < at.len() ==> 0 <= #[trigger] at[k] < lines.len()
    &&& forall|i: int|
        0 <= i < lines.len() ==> (starts_a_work(#[trigger] lines[i]) <==> at.contains(i))
}

/// Where the lines of the `k`-th work end: at the next header, or with the lines.
pub open spec fn work_end(at: Seq<int>, lines: Seq<Seq<char>>, k: int) -> int {
    if k + 1 < at.len() {
        at[k + 1]
    } else {
        lines.len() as int
    }
}

/// One more line that starts no work adds no header.
pub proof fn lemma_headers_go_on(at: Seq<int>, lines: Seq<Seq<char>>)
    requires
        lines.len() > 0,
        lists_headers(at, lines.drop_last()),
    ensures
        !starts_a_work(lines.last()) ==> lists_headers(at, lines),
        starts_a_work(lines.last()) ==> lists_headers(at.push(lines.len() - 1), lines),
{
    let n = lines.len() - 1;
    let shorter = lines.drop_last();
    assert forall|i: int| 0 <= i < n implies (starts_a_work(#[trigger] lines[i]) <==> at.contains(
        i,
    )) by {
        assert(shorter[i] == lines[i]);
    }
    assert(!at.contains(n));
    if starts_a_work(lines.last()) {
        let after = at.push(n);
        assert(after[at.len() as int] == n);
        assert forall|i: int| 0 <= i < lines.len() implies (starts_a_work(#[trigger] lines[i])
            <==> after.contains(i)) by {
            if i < n {
                if at.contains(i) {
                    let k = choose|k: int| 0 <= k < at.len() && at[k] == i;
                    assert(after[k] == i);
                }
                if after.contains(i) {
                    let k = choose|k: int| 0 <= k < after.len() && after[k] == i;
                    assert(at[k] == i);
                }
            }
        }
    }
}

/// Every header line starts a work of its own: there are as many works as header
/// lines, the `k`-th work has the author and the title of the `k`-th header line, and
/// its body is what stands between that line and the next header line, or the end.
pub proof fn law_works_lie_between_headers(lines: Seq<Seq<char>>) -> (at: Seq<int>)
    ensures
        lists_headers(at, lines),
        aozora::works_of(lines).len() == at.len(),
        forall|k: int|
            0 <= k < at.len() ==> {
                let w = #[trigger] aozora::works_of(lines)[k];
                &&& w.body_lines == lines.subrange(at[k] + 1, work_end(at, lines, k))
                &&& (w.author, w.title) == aozora::header_parts(aozora::header_text(lines[at[k]]))
            },
    decreases lines.len(),
{
    if lines.len() == 0 {
        Seq::empty()
    } else {
        let n = lines.len() - 1;
        let shorter = lines.drop_last();
        let line = lines.last();
        let before = aozora::works_of(shorter);
        let after = aozora::works_of(lines);
        let at = law_works_lie_between_headers(shorter);
        lemma_headers_go_on(at, lines);
        law_headers_start_with_bars(line);
        if starts_a_work(line) {
            let longer = at.push(n);
            assert forall|k: int| 0 <= k < longer.len() implies {
                let w = #[trigger] after[k];
                &&& w.body_lines == lines.subrange(longer[k] + 1, work_end(longer, lines, k))
                &&& (w.author, w.title) == aozora::header_parts(
                    aozora::header_text(lines[longer[k]]),
                )
            } by {
                if k < at.len() {
                    assert(after[k] == before[k]);
                    assert(work_end(longer, lines, k) == work_end(at, shorter, k));
                    assert(lines.subrange(at[k] + 1, work_end(at, shorter, k))
                        =~= shorter.subrange(at[k] + 1, work_end(at, shorter, k)));
                } else {
                    assert(after[k].body_lines =~= lines.subrange(n + 1, n + 1));
                }
            }
            longer
        } else {
            assert forall|k: int| 0 <= k < at.len() implies {
                let w = #[trigger] after[k];
                &&& w.body_lines == lines.subrange(at[k] + 1, work_end(at, lines, k))
                &&& (w.author, w.title) == aozora::header_parts(aozora::header_text(lines[at[k]]))
            } by {
                let old_end = work_end(at, shorter, k);
                assert(before[k].body_lines == shorter.subrange(at[k] + 1, old_end));
                if k + 1 < at.len() {
                    assert(after[k] == before[k]);
                    assert(lines.subrange(at[k] + 1, old_end) =~= shorter.subrange(
                        at[k] + 1,
                        old_end,
                    ));
                } else {
                    assert(lines.subrange(at[k] + 1, n + 1) =~= shorter.subrange(
                        at[k] + 1,
                        old_end,
                    ).push(line));
                }
            }
            at
        }
    }
}

/// A header line names author and title: those written between bars, the title in
/// corner brackets, are those found.
pub proof fn law_headers_name_author_and_title(author: Seq<char>, title: Seq<char>)
    requires
        author.len() > 0,
        !text::white_space(author[0]) && !text::white_space(author.last()),
        title.len() > 0 ==> !text::white_space(title[0]) && !text::white_space(title.last()),
        !author.contains('『'),
        !title.contains('』'),
    ensures
        aozora::header_line("===== "@ + author + seq!['『'] + title + "』 ====="@),
        aozora::header_parts(
            aozora::header_text("===== "@ + author + seq!['『'] + title + "』 ====="@),
        ) == (author, title),
{
    reveal_strlit("=====");
    reveal_strlit("===== ");
    reveal_strlit("』 =====");
    let bars = "====="@;
    let line = "===== "@ + author + seq!['『'] + title + "』 ====="@;
    let inner = author + seq!['『'] + title + seq!['』'];
    let open = seq![' '] + inner + seq![' '];
    law_headers_start_with_bars(line);
    assert forall|i: int| 0 <= i < 5 implies #[trigger] line[i] == '=' by {
        assert(line[i] == "===== "@[i]);
    }
    assert("===== "@ =~= bars + seq![' ']);
    assert("』 ====="@ =~= seq!['』'] + seq![' '] + bars);
    assert(line =~= bars + (open + bars));
    text_laws::law_stripping_in_front(open + bars, bars);
    assert forall|rest: Seq<char>| open + bars != #[trigger] (bars + rest) by {
        assert((open + bars)[0] == ' ');
        assert((bars + rest)[0] == '=');
    }
    text_laws::law_stripping_at_the_end(open, bars);
    assert forall|rest: Seq<char>| open != #[trigger] (rest + bars) by {
        assert(open.last() == ' ');
        assert((rest + bars).last() == bars[4]);
    }
    assert(text::strip_suffixes(text::strip_prefixes(line, bars), bars) == open);
    assert(text::white_space(' '));
    assert(!text::white_space('』'));
    lemma_trim_spaces(inner);
    assert(aozora::header_text(line) == inner);
    let n = author.len() as int;
    assert forall|i: int| 0 <= i < n implies inner[i] != '『' by {
        assert(author.contains(author[i]));
    }
    assert(inner[n] == '『');
    text::lemma_find_char_unique(inner, '『', n);
    assert(inner.take(n) =~= author);
    let after = inner.skip(n + 1);
    assert(after =~= title + seq!['』']);
    assert forall|i: int| 0 <= i < title.len() implies after[i] != '』' by {
        assert(title.contains(title[i]));
    }
    assert(after[title.len() as int] == '』');
    text::lemma_find_char_unique(after, '』', title.len() as int);
    assert(after.take(title.len() as int) =~= title);
    text_laws::law_trimmed_texts_stay(author, CharClass::WhiteSpace);
    text_laws::law_trimmed_texts_stay(title, CharClass::WhiteSpace);
}

/// A space at both ends is trimmed off.
proof fn lemma_trim_spaces(inner: Seq<char>)
    requires
        inner.len() > 0,
        !text::white_space(inner[0]),
        !text::white_space(inner.last()),
    ensures
        text::trim(seq![' '] + inner + seq![' '], CharClass::WhiteSpace) == inner,
{
    let open = seq![' '] + inner + seq![' '];
    let ends = text_laws::law_trim_takes_the_class_off(open, CharClass::WhiteSpace);
    let class = CharClass::WhiteSpace;
    assert(class.has(' '));
    assert(open[0] == ' ' && open[open.len() - 1] == ' ');
    assert(open[1] == inner[0] && !class.has(open[1]));
    assert(open[open.len() - 2] == inner.last() && !class.has(open[open.len() - 2]));
    assert(ends.0 == 1) by {
        if ends.0 > 1 {
            assert(class.has(open[1]));
        }
        if ends.0 == 0 && ends.1 == 0 {
            assert(class.has(open[1]));
        }
    }
    assert(ends.1 == open.len() - 1) by {
        if ends.1 < open.len() - 1 {
            assert(class.has(open[open.len() - 2]));
        }
    }
    assert(open.subrange(1, open.len() - 1) =~= inner);
}

/// A header is parted at its first corner bracket: what stands before it is the author,
/// and what stands behind it the title, up to the next closing bracket or to the end.
/// Neither has white space at its ends.
pub proof fn law_headers_are_parted_at_brackets(a: Seq<char>, t: Seq<char>, rest: Seq<char>)
    requires
        !a.contains('『'),
        !t.contains('』'),
    ensures
        aozora::header_parts(a + seq!['『'] + t + seq!['』'] + rest) == (
            text::trim(a, CharClass::WhiteSpace),
            text::trim(t, CharClass::WhiteSpace),
        ),
        aozora::header_parts(a + seq!['『'] + t) == (
            text::trim(a, CharClass::WhiteSpace),
            text::trim(t, CharClass::WhiteSpace),
        ),
{
    let n = a.len() as int;
    let m = t.len() as int;
    let long = a + seq!['『'] + t + seq!['』'] + rest;
    let short = a + seq!['『'] + t;
    assert forall|i: int| 0 <= i < n implies long[i] != '『' && short[i] != '『' by {
        assert(a.contains(a[i]));
        assert(long[i] == a[i] && short[i] == a[i]);
    }
    assert(long[n] == '『' && short[n] == '『');
    text::lemma_find_char_unique(long, '『', n);
    text::lemma_find_char_unique(short, '『', n);
    assert(long.take(n) =~= a);
    assert(short.take(n) =~= a);
    let after = long.skip(n + 1);
    assert(after =~= t + seq!['』'] + rest);
    assert forall|i: int| 0 <= i < m implies after[i] != '』' by {
        assert(t.contains(t[i]));
        assert(after[i] == t[i]);
    }
    assert(after[m] == '』');
    text::lemma_find_char_unique(after, '』', m);
    assert(after.take(m) =~= t);
    assert(short.skip(n + 1) =~= t);
    text::lemma_find_char(t, '』');
    if text::find_char(t, '』') < t.len() {
        assert(t.contains(t[text::find_char(t, '』')]));
    }
}

/// Bars at the ends of a header are taken off, however often they stand there, and then
/// white space is.
pub proof fn law_bars_are_taken_off(s: Seq<char>)
    requires
        s.len() > 0,
        s[0] != '=',
        s[s.len() - 1] != '=',
    ensures
        aozora::header_text(s) == text::trim(s, CharClass::WhiteSpace),
        aozora::header_text("====="@ + s) == text::trim(s, CharClass::WhiteSpace),
        aozora::header_text("====="@ + s + "====="@) == text::trim(s, CharClass::WhiteSpace),
        aozora::header_text("====="@ + ("====="@ + s) + "====="@) == text::trim(
            s,
            CharClass::WhiteSpace,
        ),
        aozora::header_text("====="@ + (s + "====="@) + "====="@) == text::trim(
            s,
            CharClass::WhiteSpace,
        ),
{
    reveal_strlit("=====");
    let bars = "====="@;
    assert(bars.len() == 5 && bars[0] == '=' && bars[4] == '=');
    lemma_no_bars_in_front(s);
    lemma_no_bars_in_front(s + bars);
    lemma_no_bars_in_front(s + bars + bars);
    text_laws::law_stripping_in_front(s, bars);
    text_laws::law_stripping_in_front(s + bars, bars);
    text_laws::law_stripping_in_front(s + bars + bars, bars);
    text_laws::law_stripping_in_front(bars + (s + bars), bars);
    assert(bars + s + bars =~= bars + (s + bars));
    assert(bars + (bars + s) + bars =~= bars + (bars + (s + bars)));
    assert(bars + (s + bars) + bars =~= bars + (s + bars + bars));
    assert forall|rest: Seq<char>| s != #[trigger] (rest + bars) by {
        assert((rest + bars).last() == bars[4]);
    }
    text_laws::law_stripping_at_the_end(s, bars);
    text_laws::law_stripping_at_the_end(s + bars, bars);
}

proof fn lemma_no_bars_in_front(s: Seq<char>)
    requires
        s.len() > 0,
        s[0] != '=',
    ensures
        forall|rest: Seq<char>| s != #[trigger] ("====="@ + rest),
{
    reveal_strlit("=====");
    assert forall|rest: Seq<char>| s != #[trigger] ("====="@ + rest) by {
        assert(("====="@ + rest)[0] == "====="@[0]);
    }
}

/// Without a corner bracket all of a header is the author, as it stands.
pub proof fn law_headers_without_title(s: Seq<char>)
    requires
        !s.contains('『'),
    ensures
        aozora::header_parts(s) == (s, Seq::<char>::empty()),
{
    text::lemma_find_char(s, '『');
    if text::find_char(s, '『') < s.len() {
        assert(s.contains(s[text::find_char(s, '『')]));
    }
}

/// Han digits and words for parts of a book, as chapters are named with.
pub open spec fn han_digits() -> Seq<char> {
    "一二三四五六七八九十〇"@
}

proof fn lemma_in_literals()
    ensures
        forall|c: char| #[trigger] aozora::chapter_kanji_digit(c) <==> han_digits().contains(c),
        forall|c: char| #[trigger] aozora::chapter_suffix(c) <==> "章節部編話巻卷回"@.contains(c),
        forall|c: char| #[trigger] aozora::speaker_separator(c) <==> "　 、。：:"@.contains(c),
{
    reveal_strlit("一二三四五六七八九十〇");
    reveal_strlit("章節部編話巻卷回");
    reveal_strlit("　 、。：:");
    let a = han_digits();
    let b = "章節部編話巻卷回"@;
    let d = "　 、。：:"@;
    assert(a.len() == 11 && b.len() == 8 && d.len() == 6);
    assert(a[0] == '一' && a[1] == '二' && a[2] == '三' && a[3] == '四' && a[4] == '五' && a[5]
        == '六' && a[6] == '七' && a[7] == '八' && a[8] == '九' && a[9] == '十' && a[10] == '〇');
    assert(b[0] == '章' && b[1] == '節' && b[2] == '部' && b[3] == '編' && b[4] == '話' && b[5]
        == '巻' && b[6] == '卷' && b[7] == '回');
    assert(d[0] == '　' && d[1] == ' ' && d[2] == '、' && d[3] == '。' && d[4] == '：' && d[5]
        == ':');
    assert forall|c: char| #[trigger] aozora::chapter_kanji_digit(c) <==> a.contains(c) by {
        if a.contains(c) {
            let i = choose|i: int| 0 <= i < a.len() && a[i] == c;
            assert(0 <= i < 11);
        }
    }
    assert forall|c: char| #[trigger] aozora::chapter_suffix(c) <==> b.contains(c) by {
        if b.contains(c) {
            let i = choose|i: int| 0 <= i < b.len() && b[i] == c;
            assert(0 <= i < 8);
        }
    }
    assert forall|c: char| #[trigger] aozora::speaker_separator(c) <==> d.contains(c) by {
        if d.contains(c) {
            let i = choose|i: int| 0 <= i < d.len() && d[i] == c;
            assert(0 <= i < 6);
        }
    }
}

/// Digits of any kind.
proof fn lemma_chapter_digit(c: char)
    ensures
        aozora::chapter_digit(c) == (aozora::chapter_kanji_digit(c) || c == '百' || c == '千' || '0'
            <= c <= '9' || '\u{ff10}' <= c <= '\u{ff19}'),
{
}

/// A line numbers a chapter if, blanks around it aside, it is one to three Han
/// digits, or `第`, one to four digits of any kind and a word for a part.
pub proof fn law_chapter_lines_are_numbers(line: Seq<char>, a: Seq<char>, t: Seq<char>, b: Seq<char>)
    requires
        line == a + t + b,
        forall|i: int| 0 <= i < a.len() ==> CharClass::Blank.has(#[trigger] a[i]),
        forall|i: int| 0 <= i < b.len() ==> CharClass::Blank.has(#[trigger] b[i]),
        t.len() > 0 ==> !CharClass::Blank.has(t[0]) && !CharClass::Blank.has(t.last()),
    ensures
        aozora::chapter_number_line(line) <==> {
            ||| 1 <= t.len() <= 3 && forall|i: int|
                0 <= i < t.len() ==> han_digits().contains(#[trigger] t[i])
            ||| {
                &&& 3 <= t.len() <= 6
                &&& t[0] == '第'
                &&& "章節部編話巻卷回"@.contains(t.last())
                &&& forall|i: int|
                    1 <= i < t.len() - 1 ==> han_digits().contains(#[trigger] t[i]) || t[i] == '百'
                        || t[i] == '千' || '0' <= t[i] <= '9' || '\u{ff10}' <= t[i] <= '\u{ff19}'
            }
        },
{
    lemma_in_literals();
    lemma_trimmed_middle(a, t, b, CharClass::Blank);
    assert forall|i: int| 1 <= i < t.len() - 1 implies aozora::chapter_digit(#[trigger] t[i]) == (
    han_digits().contains(t[i]) || t[i] == '百' || t[i] == '千' || '0' <= t[i] <= '9' || '\u{ff10}'
        <= t[i] <= '\u{ff19}') by {
        let c = t[i];
        assert(aozora::chapter_kanji_digit(c) <==> han_digits().contains(c));
        lemma_chapter_digit(c);
    }
    assert(text::trim(line, CharClass::Blank) == t);
    if aozora::chapter_number_line(line) {
        if t.len() <= 3 && forall|i: int|
            0 <= i < t.len() ==> aozora::chapter_kanji_digit(#[trigger] t[i]) {
            assert forall|i: int| 0 <= i < t.len() implies han_digits().contains(#[trigger] t[i]) by {
                assert(aozora::chapter_kanji_digit(t[i]));
            }
        } else {
            assert forall|i: int| 1 <= i < t.len() - 1 implies han_digits().contains(
                #[trigger] t[i],
            ) || t[i] == '百' || t[i] == '千' || '0' <= t[i] <= '9' || '\u{ff10}' <= t[i] <= '\u{ff19}' by {
                assert(aozora::chapter_digit(t[i]));
            }
            assert(aozora::chapter_suffix(t.last()));
        }
    }
    if t.len() > 0 {
        assert forall|i: int| 0 <= i < t.len() && han_digits().contains(t[i]) implies
            aozora::chapter_kanji_digit(#[trigger] t[i]) by {}
        assert(aozora::chapter_suffix(t.last()) <==> "章節部編話巻卷回"@.contains(t.last()));
    }
}

/// What is not of the class at its ends is what trimming leaves.
proof fn lemma_trimmed_middle(a: Seq<char>, t: Seq<char>, b: Seq<char>, class: CharClass)
    requires
        forall|i: int| 0 <= i < a.len() ==> class.has(#[trigger] a[i]),
        forall|i: int| 0 <= i < b.len() ==> class.has(#[trigger] b[i]),
        t.len() > 0 ==> !class.has(t[0]) && !class.has(t.last()),
    ensures
        text::trim(a + t + b, class) == t,
{
    let s = a + t + b;
    let ends = text_laws::law_trim_takes_the_class_off(s, class);
    let n = a.len() as int;
    let m = n + t.len();
    if t.len() == 0 {
        if ends.0 < ends.1 {
            let i = ends.0;
            if i < n {
                assert(s[i] == a[i]);
            } else {
                assert(s[i] == b[i - n]);
            }
        }
        assert(s.subrange(ends.0, ends.1) =~= t);
    } else {
        assert(s[n] == t[0]);
        assert(s[m - 1] == t.last());
        assert(ends.0 == n) by {
            if ends.0 < n {
                assert(s[ends.0] == a[ends.0]);
                if ends.0 == ends.1 {
                    assert(class.has(s[n]));
                }
            }
        }
        assert(ends.1 == m) by {
            if ends.1 > m {
                assert(s[ends.1 - 1] == b[ends.1 - 1 - m]);
            }
            if ends.1 < m {
                assert(class.has(s[m - 1]));
            }
        }
        assert(s.subrange(n, m) =~= t);
    }
}

/// Han characters and katakana are those of their Unicode blocks.
pub open spec fn name_character(c: char) -> bool {
    ||| '\u{3400}' <= c <= '\u{4dbf}'
    ||| '\u{4e00}' <= c <= '\u{9fff}'
    ||| '\u{20000}' <= c <= '\u{2a6df}'
    ||| '\u{30a0}' <= c <= '\u{30ff}'
    ||| '\u{31f0}' <= c <= '\u{31ff}'
}

/// The blocks are those of Han characters and of katakana.
proof fn lemma_name_character(c: char)
    ensures
        name_character(c) == (aozora::kanji(c) || aozora::katakana(c)),
{
}

/// Where a speaker's name ends.
proof fn lemma_name_ends(s: Seq<char>, limit: nat)
    ensures
        aozora::speaker_length(s, limit) <= limit,
        aozora::speaker_length(s, limit) <= s.len(),
        forall|i: int|
            0 <= i < aozora::speaker_length(s, limit) ==> name_character(#[trigger] s[i]),
        ({
            let n = aozora::speaker_length(s, limit);
            n < limit && n < s.len() ==> !name_character(s[n as int])
        }),
    decreases limit,
{
    if s.len() > 0 {
        lemma_name_character(s[0]);
    }
    if limit > 0 && s.len() > 0 && name_character(s[0]) {
        let rest = s.skip(1);
        lemma_name_ends(rest, (limit - 1) as nat);
        assert forall|i: int| 0 <= i < aozora::speaker_length(s, limit) implies name_character(
            #[trigger] s[i],
        ) by {
            if i > 0 {
                assert(s[i] == rest[i - 1]);
            }
        }
    }
}

/// The line is spoken if behind `b` blanks stand a name of `n` Han or katakana
/// characters, a separator, and something more.
pub open spec fn spoken_with(line: Seq<char>, b: int, n: int) -> bool {
    &&& 0 <= b
    &&& 1 <= n <= 6
    &&& b + n + 1 < line.len()
    &&& forall|i: int| 0 <= i < b ==> CharClass::Blank.has(#[trigger] line[i])
    &&& forall|i: int| b <= i < b + n ==> name_character(#[trigger] line[i])
    &&& "　 、。：:"@.contains(line[b + n])
}

/// A line is one of a drama if and only if a name of one to six characters, a
/// separator and some words stand in it, behind blanks.
pub proof fn law_spoken_lines_name_a_speaker(line: Seq<char>)
    ensures
        aozora::drama_speaker_line(line) <==> exists|b: int, n: int| spoken_with(line, b, n),
{
    let from = text_laws::law_trim_start_takes_the_class_off(line, CharClass::Blank);
    let s = line.skip(from);
    let k = aozora::speaker_length(s, 6) as int;
    lemma_in_literals();
    lemma_name_ends(s, 6);
    if aozora::drama_speaker_line(line) {
        assert(s[k] == line[from + k]);
        assert(aozora::speaker_separator(s[k]));
        assert forall|i: int| from <= i < from + k implies name_character(#[trigger] line[i]) by {
            assert(line[i] == s[i - from]);
        }
        assert(spoken_with(line, from, k));
    }
    if exists|b: int, n: int| spoken_with(line, b, n) {
        let (b, n) = choose|b: int, n: int| spoken_with(line, b, n);
        assert(name_character(line[b]));
        assert(!CharClass::Blank.has(line[b]));
        assert(from == b) by {
            if from > b {
                assert(CharClass::Blank.has(line[b]));
            }
            if from < b {
                assert(CharClass::Blank.has(line[from]));
            }
        }
        let c = line[b + n];
        assert(aozora::speaker_separator(c));
        assert(!name_character(c));
        assert(k == n) by {
            if k < n {
                assert(s[k] == line[b + k]);
            }
            if k > n {
                assert(s[n] == line[b + n]);
            }
        }
        assert(s[k] == c);
    }
}

/// Lines are counted by what they are: those that are not empty, those that are
/// spoken, and those that number a chapter.
pub proof fn law_line_counts_are_numbers_of_lines(lines: Seq<Seq<char>>)
    ensures
        aozora::filled_lines(lines) == lines.filter(|l: Seq<char>| l.len() > 0).len(),
        aozora::drama_lines(lines) == lines.filter(
            |l: Seq<char>| aozora::drama_speaker_line(l),
        ).len(),
        aozora::chapter_lines(lines) == lines.filter(
            |l: Seq<char>| aozora::chapter_number_line(l),
        ).len(),
    decreases lines.len(),
{
    reveal(Seq::filter);
    if lines.len() > 0 {
        law_line_counts_are_numbers_of_lines(lines.drop_last());
    }
}

/// A work is a drama if it has at least 20 lines that are not empty, and at least 45
/// spoken lines for each hundred of them.
pub proof fn law_dramas_are_spoken(w: WorkModel)
    ensures
        w.is_drama() <==> {
            let filled = w.body_lines.filter(|l: Seq<char>| l.len() > 0).len();
            let spoken = w.body_lines.filter(|l: Seq<char>| aozora::drama_speaker_line(l)).len();
            filled >= 20 && 100 * spoken >= 45 * filled
        },
{
    law_line_counts_are_numbers_of_lines(w.body_lines);
}

/// Each line with a newline behind it.
pub open spec fn ended(lines: Seq<Seq<char>>) -> Seq<char> {
    lines.map_values(|l: Seq<char>| l.push('\n')).flatten()
}

/// One more line.
pub proof fn lemma_ended_push(lines: Seq<Seq<char>>, l: Seq<char>)
    ensures
        ended(lines.push(l)) == ended(lines) + l + seq!['\n'],
{
    let all = lines.map_values(|l: Seq<char>| l.push('\n'));
    assert(lines.push(l).map_values(|l: Seq<char>| l.push('\n')) =~= all.push(l.push('\n')));
    all.lemma_flatten_push(l.push('\n'));
    assert(ended(lines.push(l)) =~= ended(lines) + l + seq!['\n']);
}

/// The body text is made of the lines that number no chapter.
proof fn lemma_body_text(lines: Seq<Seq<char>>)
    ensures
        aozora::body_text(lines) == ended(
            lines.filter(|l: Seq<char>| !aozora::chapter_number_line(l)),
        ),
    decreases lines.len(),
{
    reveal(Seq::filter);
    let kept = lines.filter(|l: Seq<char>| !aozora::chapter_number_line(l));
    if lines.len() > 0 {
        let shorter = lines.drop_last();
        let before = shorter.filter(|l: Seq<char>| !aozora::chapter_number_line(l));
        lemma_body_text(shorter);
        if !aozora::chapter_number_line(lines.last()) {
            lemma_ended_push(before, lines.last());
            assert(kept == before.push(lines.last()));
        }
    } else {
        assert(ended(kept) =~= Seq::empty());
    }
}

/// Newlines at the end are cut down to one, and nothing else is.
pub proof fn law_one_newline_is_left(s: Seq<char>) -> (n: int)
    ensures
        0 <= n <= s.len(),
        aozora::one_final_newline(s) == s.take(n),
        forall|i: int| n <= i < s.len() ==> #[trigger] s[i] == '\n',
        n < s.len() ==> n > 0 && s[n - 1] == '\n',
        n >= 2 ==> !(s[n - 1] == '\n' && s[n - 2] == '\n'),
    decreases s.len(),
{
    if s.len() >= 2 && s[s.len() - 1] == '\n' && s[s.len() - 2] == '\n' {
        let shorter = s.drop_last();
        let n = law_one_newline_is_left(shorter);
        assert(shorter.take(n) =~= s.take(n));
        assert forall|i: int| n <= i < s.len() implies #[trigger] s[i] == '\n' by {
            if i < shorter.len() {
                assert(s[i] == shorter[i]);
            }
        }
        n
    } else {
        assert(s.take(s.len() as int) =~= s);
        s.len() as int
    }
}

/// The body ends with its last line that is not empty.
proof fn lemma_body_end(lines: Seq<Seq<char>>, m: int)
    requires
        0 <= m <= lines.len(),
        forall|i: int| 0 <= i < lines.len() ==> text::unbroken(#[trigger] lines[i]),
        forall|k: int| m <= k < lines.len() ==> (#[trigger] lines[k]).len() == 0,
        m > 0 ==> lines[m - 1].len() > 0,
    ensures
        aozora::with_newline(aozora::one_final_newline(ended(lines))) == (if m == 0 {
            seq!['\n']
        } else {
            ended(lines.take(m))
        }),
    decreases lines.len(),
{
    let s = ended(lines);
    if lines.len() == 0 {
        assert(s =~= Seq::empty());
        assert(aozora::with_newline(s) =~= seq!['\n']);
    } else {
        let shorter = lines.drop_last();
        let last = lines.last();
        assert(shorter.push(last) =~= lines);
        lemma_ended_push(shorter, last);
        assert(lines[lines.len() - 1] == last);
        if m == lines.len() {
            assert(text::unbroken(last));
            assert(s[s.len() - 2] == last[last.len() - 1]);
            assert(lines.take(m) =~= lines);
        } else {
            assert forall|i: int| 0 <= i < shorter.len() implies text::unbroken(
                #[trigger] shorter[i],
            ) by {
                assert(shorter[i] == lines[i]);
            }
            lemma_body_end(shorter, m);
            assert(shorter.take(m) =~= lines.take(m));
            let t = ended(shorter);
            assert(s =~= t.push('\n'));
            if shorter.len() > 0 {
                let l = shorter.last();
                assert(shorter.drop_last().push(l) =~= shorter);
                lemma_ended_push(shorter.drop_last(), l);
                assert(t.last() == '\n');
                assert(s.drop_last() =~= t);
            } else {
                assert(t =~= Seq::empty());
                assert(aozora::with_newline(s) =~= seq!['\n']);
            }
        }
    }
}

/// In the cleaned corpus a work is its author and title in their marks, then the
/// lines that number no chapter, each ended by a newline, up to the last that is not
/// empty, and then the mark of its end; a drama is marked as one.
pub proof fn law_works_are_rendered_line_by_line(w: WorkModel) -> (m: int)
    requires
        forall|i: int| 0 <= i < w.body_lines.len() ==> text::unbroken(#[trigger] w.body_lines[i]),
    ensures
        ({
            let kept = w.body_lines.filter(|l: Seq<char>| !aozora::chapter_number_line(l));
            &&& 0 <= m <= kept.len()
            &&& forall|k: int| m <= k < kept.len() ==> (#[trigger] kept[k]).len() == 0
            &&& m > 0 ==> kept[m - 1].len() > 0
            &&& w.rendered() == "<BOS><AUTHOR="@ + w.author + "><TITLE>"@ + w.title + "</TITLE>"@
                + (if w.is_drama() {
                "<DRAMA>\n"@
            } else {
                "\n"@
            }) + (if m == 0 {
                seq!['\n']
            } else {
                ended(kept.take(m))
            }) + (if w.is_drama() {
                "</DRAMA><EOS>\n"@
            } else {
                "<EOS>\n"@
            })
        }),
{
    let keeps = |l: Seq<char>| !aozora::chapter_number_line(l);
    let kept = w.body_lines.filter(keeps);
    let m = lemma_last_filled(kept);
    lemma_body_text(w.body_lines);
    assert forall|i: int| 0 <= i < kept.len() implies text::unbroken(#[trigger] kept[i]) by {
        assert(kept.contains(kept[i]));
        w.body_lines.lemma_filter_contains_rev(keeps, kept[i]);
        let j = choose|j: int| 0 <= j < w.body_lines.len() && w.body_lines[j] == kept[i];
        assert(text::unbroken(w.body_lines[j]));
    }
    lemma_body_end(kept, m);
    m
}

/// The number of lines up to the last that is not empty.
proof fn lemma_last_filled(lines: Seq<Seq<char>>) -> (m: int)
    ensures
        0 <= m <= lines.len(),
        forall|k: int| m <= k < lines.len() ==> (#[trigger] lines[k]).len() == 0,
        m > 0 ==> lines[m - 1].len() > 0,
    decreases lines.len(),
{
    if lines.len() == 0 || lines.last().len() > 0 {
        lines.len() as int
    } else {
        let shorter = lines.drop_last();
        let m = lemma_last_filled(shorter);
        assert forall|k: int| m <= k < lines.len() implies (#[trigger] lines[k]).len() == 0 by {
            if k < shorter.len() {
                assert(lines[k] == shorter[k]);
            }
        }
        if m > 0 {
            assert(shorter[m - 1] == lines[m - 1]);
        }
        m
    }
}

/// The cleaned corpus is all works, one behind the other.
pub proof fn law_the_corpus_is_all_works(works: Seq<WorkModel>)
    ensures
        aozora::rendered_all(works) == works.map_values(|w: WorkModel| w.rendered()).flatten(),
    decreases works.len(),
{
    let all = works.map_values(|w: WorkModel| w.rendered());
    if works.len() > 0 {
        let shorter = works.drop_last();
        law_the_corpus_is_all_works(shorter);
        let front = shorter.map_values(|w: WorkModel| w.rendered());
        front.lemma_flatten_push(works.last().rendered());
        assert(all =~= front.push(works.last().rendered()));
    } else {
        assert(aozora::rendered_all(works) =~= all.flatten());
    }
}

/// Flattening one more text adds its length.
proof fn lemma_flat_length(list: Seq<Seq<char>>, l: Seq<char>)
    ensures
        list.push(l).flatten().len() == list.flatten().len() + l.len(),
{
    list.lemma_flatten_push(l);
}

/// What is counted of a cleaned corpus: its dramas, the text of dramas and of other
/// works, and the chapter lines left out.
pub proof fn law_totals_are_sums_over_works(works: Seq<WorkModel>, drama: bool)
    ensures
        aozora::drama_works(works) == works.filter(|w: WorkModel| w.is_drama()).len(),
        aozora::body_chars(works, drama) == works.filter(
            |w: WorkModel| w.is_drama() == drama,
        ).map_values(|w: WorkModel| w.body()).flatten().len(),
        aozora::removed_lines(works) == works.map_values(
            |w: WorkModel| w.body_lines,
        ).flatten().filter(|l: Seq<char>| aozora::chapter_number_line(l)).len(),
    decreases works.len(),
{
    reveal(Seq::filter);
    let chosen = works.filter(|w: WorkModel| w.is_drama() == drama);
    let bodies = chosen.map_values(|w: WorkModel| w.body());
    let lines = works.map_values(|w: WorkModel| w.body_lines);
    let chapters = |l: Seq<char>| aozora::chapter_number_line(l);
    if works.len() > 0 {
        let shorter = works.drop_last();
        let w = works.last();
        law_totals_are_sums_over_works(shorter, drama);
        let before = shorter.filter(|w: WorkModel| w.is_drama() == drama);
        if w.is_drama() == drama {
            assert(bodies =~= before.map_values(|w: WorkModel| w.body()).push(w.body()));
            lemma_flat_length(before.map_values(|w: WorkModel| w.body()), w.body());
        } else {
            assert(chosen == before);
        }
        let front = shorter.map_values(|w: WorkModel| w.body_lines);
        assert(lines =~= front.push(w.body_lines));
        front.lemma_flatten_push(w.body_lines);
        Seq::filter_distributes_over_add(front.flatten(), w.body_lines, chapters);
        law_line_counts_are_numbers_of_lines(w.body_lines);
    } else {
        assert(bodies.flatten() =~= Seq::empty());
        assert(lines.flatten() =~= Seq::empty());
    }
}

/// What an author has in a cleaned corpus: the number of their works, and the text of
/// them.
pub proof fn law_authors_have_their_works(works: Seq<WorkModel>, author: Seq<char>)
    ensures
        aozora::works_by(works, author) == works.filter(|w: WorkModel| w.author == author).len(),
        aozora::chars_by(works, author) == works.filter(
            |w: WorkModel| w.author == author,
        ).map_values(|w: WorkModel| w.body()).flatten().len(),
    decreases works.len(),
{
    reveal(Seq::filter);
    let chosen = works.filter(|w: WorkModel| w.author == author);
    let bodies = chosen.map_values(|w: WorkModel| w.body());
    if works.len() > 0 {
        let shorter = works.drop_last();
        let w = works.last();
        law_authors_have_their_works(shorter, author);
        let before = shorter.filter(|w: WorkModel| w.author == author);
        if w.author == author {
            assert(bodies =~= before.map_values(|w: WorkModel| w.body()).push(w.body()));
            lemma_flat_length(before.map_values(|w: WorkModel| w.body()), w.body());
        } else {
            assert(chosen == before);
        }
    } else {
        assert(bodies.flatten() =~= Seq::empty());
    }
}

/// Some share is that of the author.
pub open spec fn is_listed(shares: Seq<AuthorShare>, author: Seq<char>) -> bool {
    exists|i: int| 0 <= i < shares.len() && (#[trigger] shares[i]).author@ == author
}

/// The authors are listed with their works and their text, those with the most text
/// first and those with as much text by name, and every author of a work once.
pub proof fn law_authors_are_listed_by_text(shares: Seq<AuthorShare>, works: Seq<WorkModel>)
    requires
        aozora::counts_authors(shares, works),
        aozora::shares_in_order(shares),
    ensures
        forall|i: int, j: int|
            0 <= i < j < shares.len() ==> (#[trigger] shares[i]).chars >= (
            #[trigger] shares[j]).chars && shares[i].author@ != shares[j].author@ && (
            shares[i].chars == shares[j].chars ==> table::before(
                shares[i].author@,
                shares[j].author@,
            )),
        forall|i: int|
            0 <= i < shares.len() ==> {
                let own = works.filter(|w: WorkModel| w.author == (#[trigger] shares[i]).author@);
                &&& shares[i].works == own.len() > 0
                &&& shares[i].chars == own.map_values(
                    |w: WorkModel| w.body(),
                ).flatten().len()
            },
        forall|k: int|
            0 <= k < works.len() ==> is_listed(shares, (#[trigger] works[k]).author),
{
    assert forall|i: int, j: int| 0 <= i < j < shares.len() implies (#[trigger] shares[i]).chars
        >= (#[trigger] shares[j]).chars && shares[i].author@ != shares[j].author@ && (
    shares[i].chars == shares[j].chars ==> table::before(shares[i].author@, shares[j].author@)) by {
        assert(aozora::share_before(shares[i], shares[j]));
    }
    assert forall|i: int| 0 <= i < shares.len() implies {
        let own = works.filter(|w: WorkModel| w.author == (#[trigger] shares[i]).author@);
        &&& shares[i].works == own.len() > 0
        &&& shares[i].chars == own.map_values(|w: WorkModel| w.body()).flatten().len()
    } by {
        law_authors_have_their_works(works, shares[i].author@);
    }
    assert forall|k: int| 0 <= k < works.len() implies is_listed(
        shares,
        (#[trigger] works[k]).author,
    ) by {
        assert(aozora::lists_author(shares, works[k].author));
    }
}

} // verus!
