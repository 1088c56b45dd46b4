//! What holds of the measures of every corpus.

use vstd::prelude::*;

use crate::aozora;
use crate::aozora_laws;
use crate::corpus_report::{self, AuthorScan, Passages, StatModel, TallyModel, WorkStat};
use crate::ranking::{self, Share};
use crate::text::{self, CharClass};
use crate::text_laws;

verus! {

/// The lines that count for a work so far, and what has been read of them.
spec fn reads_work(
    lines: Seq<Seq<char>>,
    at: Seq<int>,
    stat: StatModel,
    k: int,
    end: int,
) -> bool {
    let from = if k == 0 {
        0
    } else {
        at[k] + 1
    };
    let own = lines.subrange(from, end);
    &&& stat.title == lines[at[k]]
    &&& stat.line_count == own.filter(|l: Seq<char>| !aozora_laws::starts_a_work(l)).len()
    &&& stat.drama_count == own.filter(
        |l: Seq<char>| !aozora_laws::starts_a_work(l) && aozora::drama_speaker_line(l),
    ).len()
}

/// What is read after all lines: the works before the last, and the last.
proof fn lemma_read_stats(lines: Seq<Seq<char>>) -> (at: Seq<int>)
    ensures
        aozora_laws::lists_headers(at, lines),
        ({
            let (done, current) = corpus_report::read_stats(lines);
            &&& at.len() == 0 ==> done.len() == 0 && current.title.len() == 0
                && current.line_count == lines.filter(
                |l: Seq<char>| !aozora_laws::starts_a_work(l),
            ).len() && current.drama_count == lines.filter(
                |l: Seq<char>| !aozora_laws::starts_a_work(l) && aozora::drama_speaker_line(l),
            ).len()
            &&& at.len() > 0 ==> done.len() == at.len() - 1 && current.title.len() > 0
                && reads_work(lines, at, current, at.len() - 1, lines.len() as int)
            &&& forall|k: int|
                0 <= k < done.len() ==> reads_work(lines, at, #[trigger] done[k], k, at[k + 1])
        }),
    decreases lines.len(),
{
    reveal(Seq::filter);
    if lines.len() == 0 {
        Seq::empty()
    } else {
        let n = lines.len() - 1;
        let shorter = lines.drop_last();
        let line = lines.last();
        let (done0, current0) = corpus_report::read_stats(shorter);
        let (done, current) = corpus_report::read_stats(lines);
        let at = lemma_read_stats(shorter);
        aozora_laws::lemma_headers_go_on(at, lines);
        aozora_laws::law_headers_start_with_bars(line);
        let last = at.len() - 1;
        let from = if last <= 0 {
            0
        } else {
            at[last] + 1
        };
        assert(lines.subrange(from, n + 1).drop_last() =~= shorter.subrange(from, n));
        assert(lines.subrange(from, n + 1).last() == line);
        assert(lines.subrange(0, n + 1) =~= lines);
        assert(shorter.subrange(0, n) =~= shorter);
        let after = if aozora_laws::starts_a_work(line) {
            at.push(n)
        } else {
            at
        };
        if aozora_laws::starts_a_work(line) && at.len() > 0 {
            assert(lines.subrange(n + 1, n + 1) =~= Seq::empty());
        }
        assert forall|k: int| 0 <= k < done.len() implies reads_work(
            lines,
            after,
            #[trigger] done[k],
            k,
            after[k + 1],
        ) by {
            let start = if k == 0 {
                0
            } else {
                at[k] + 1
            };
            if k < done0.len() {
                assert(done[k] == done0[k]);
                assert(reads_work(shorter, at, done0[k], k, at[k + 1]));
                assert(lines.subrange(start, at[k + 1]) =~= shorter.subrange(start, at[k + 1]));
            } else {
                assert(lines.subrange(start, n) =~= shorter.subrange(start, n));
            }
        }
        after
    }
}

/// Each work counts its own lines: the `k`-th work has the `k`-th header line as its
/// title, as many lines as stand between that line and the next header line, or the
/// end, and as many spoken lines as are among them. To the first work the lines
/// before its header count too.
pub proof fn law_works_count_their_own_lines(lines: Seq<Seq<char>>) -> (at: Seq<int>)
    ensures
        aozora_laws::lists_headers(at, lines),
        corpus_report::work_stats(lines).len() == at.len(),
        forall|k: int|
            0 <= k < at.len() ==> {
                let stat = #[trigger] corpus_report::work_stats(lines)[k];
                let own = if k == 0 {
                    lines.take(at[0]) + lines.subrange(at[0] + 1, aozora_laws::work_end(at, lines, 0))
                } else {
                    lines.subrange(at[k] + 1, aozora_laws::work_end(at, lines, k))
                };
                &&& stat.title == lines[at[k]]
                &&& stat.line_count == own.len()
                &&& stat.drama_count == own.filter(
                    |l: Seq<char>| aozora::drama_speaker_line(l),
                ).len()
            },
{
    let at = lemma_read_stats(lines);
    let (done, current) = corpus_report::read_stats(lines);
    let all = corpus_report::work_stats(lines);
    assert forall|k: int| 0 <= k < at.len() implies {
        let stat = #[trigger] all[k];
        let own = if k == 0 {
            lines.take(at[0]) + lines.subrange(at[0] + 1, aozora_laws::work_end(at, lines, 0))
        } else {
            lines.subrange(at[k] + 1, aozora_laws::work_end(at, lines, k))
        };
        &&& stat.title == lines[at[k]]
        &&& stat.line_count == own.len()
        &&& stat.drama_count == own.filter(|l: Seq<char>| aozora::drama_speaker_line(l)).len()
    } by {
        let end = aozora_laws::work_end(at, lines, k);
        let stat = all[k];
        assert(reads_work(lines, at, stat, k, end)) by {
            if k < done.len() {
                assert(reads_work(lines, at, done[k], k, at[k + 1]));
            }
        }
        let body = lines.subrange(at[k] + 1, end);
        assert forall|i: int| 0 <= i < body.len() implies !aozora_laws::starts_a_work(
            #[trigger] body[i],
        ) by {
            let j = at[k] + 1 + i;
            assert(body[i] == lines[j]);
            lemma_no_header_between(at, lines, k, j);
        }
        lemma_all_are_kept(body);
        if k == 0 {
            let front = lines.take(at[0]);
            assert forall|i: int| 0 <= i < front.len() implies !aozora_laws::starts_a_work(
                #[trigger] front[i],
            ) by {
                assert(front[i] == lines[i]);
                if aozora_laws::starts_a_work(lines[i]) {
                    assert(at.contains(i));
                    let m = choose|m: int| 0 <= m < at.len() && at[m] == i;
                    if m > 0 {
                        assert(at[0] < at[m]);
                    }
                }
            }
            lemma_all_are_kept(front);
            let header = seq![lines[at[0]]];
            assert(aozora_laws::starts_a_work(lines[at[0]])) by {
                assert(at.contains(at[0]));
            }
            lemma_header_is_left_out(front, lines[at[0]], body);
            assert(lines.subrange(0, end) =~= front + header + body);
            Seq::filter_distributes_over_add(
                front,
                body,
                |l: Seq<char>| aozora::drama_speaker_line(l),
            );
        }
    }
    at
}

/// No header stands between two that follow each other.
proof fn lemma_no_header_between(at: Seq<int>, lines: Seq<Seq<char>>, k: int, j: int)
    requires
        aozora_laws::lists_headers(at, lines),
        0 <= k < at.len(),
        at[k] < j < aozora_laws::work_end(at, lines, k),
        0 <= j < lines.len(),
    ensures
        !aozora_laws::starts_a_work(lines[j]),
{
    if at.contains(j) {
        let m = choose|m: int| 0 <= m < at.len() && at[m] == j;
        if m < k {
            assert(at[m] < at[k]);
        } else if m > k + 1 {
            assert(at[k + 1] < at[m]);
        }
    }
}

/// Without header lines nothing is left out.
proof fn lemma_all_are_kept(lines: Seq<Seq<char>>)
    requires
        forall|i: int| 0 <= i < lines.len() ==> !aozora_laws::starts_a_work(#[trigger] lines[i]),
    ensures
        lines.filter(|l: Seq<char>| !aozora_laws::starts_a_work(l)).len() == lines.len(),
        lines.filter(
            |l: Seq<char>| !aozora_laws::starts_a_work(l) && aozora::drama_speaker_line(l),
        ).len() == lines.filter(|l: Seq<char>| aozora::drama_speaker_line(l)).len(),
    decreases lines.len(),
{
    reveal(Seq::filter);
    if lines.len() > 0 {
        let shorter = lines.drop_last();
        assert forall|i: int| 0 <= i < shorter.len() implies !aozora_laws::starts_a_work(
            #[trigger] shorter[i],
        ) by {
            assert(shorter[i] == lines[i]);
        }
        assert(lines[lines.len() - 1] == lines.last());
        lemma_all_are_kept(shorter);
    }
}

/// A header line is left out of the count.
proof fn lemma_header_is_left_out(front: Seq<Seq<char>>, header: Seq<char>, body: Seq<Seq<char>>)
    requires
        aozora_laws::starts_a_work(header),
    ensures
        ({
            let all = front + seq![header] + body;
            let plain = |l: Seq<char>| !aozora_laws::starts_a_work(l);
            let spoken = |l: Seq<char>|
                !aozora_laws::starts_a_work(l) && aozora::drama_speaker_line(l);
            &&& all.filter(plain).len() == front.filter(plain).len() + body.filter(plain).len()
            &&& all.filter(spoken).len() == front.filter(spoken).len() + body.filter(spoken).len()
        }),
{
    let plain = |l: Seq<char>| !aozora_laws::starts_a_work(l);
    let spoken = |l: Seq<char>| !aozora_laws::starts_a_work(l) && aozora::drama_speaker_line(l);
    lemma_one_is_left_out(front, header, body, plain);
    lemma_one_is_left_out(front, header, body, spoken);
}

/// What is not asked for does not count.
proof fn lemma_one_is_left_out(
    front: Seq<Seq<char>>,
    one: Seq<char>,
    body: Seq<Seq<char>>,
    asked: spec_fn(Seq<char>) -> bool,
)
    requires
        !asked(one),
    ensures
        (front + seq![one] + body).filter(asked).len() == front.filter(asked).len() + body.filter(
            asked,
        ).len(),
{
    let single = seq![one];
    Seq::filter_distributes_over_add(front + single, body, asked);
    Seq::filter_distributes_over_add(front, single, asked);
    assert(single.filter(asked).len() == 0) by {
        reveal(Seq::filter);
        assert(single.drop_last() =~= Seq::<Seq<char>>::empty());
        assert(single.drop_last().filter(asked).len() == 0);
    }
}

/// The lines of all works.
pub open spec fn line_sum(stats: Seq<StatModel>) -> nat
    decreases stats.len(),
{
    if stats.len() == 0 {
        0
    } else {
        line_sum(stats.drop_last()) + stats.last().line_count
    }
}

/// The lines of all works and the header lines are all lines, where there is any work.
pub proof fn law_line_counts_add_up(lines: Seq<Seq<char>>)
    ensures
        corpus_report::work_stats(lines).len() > 0 ==> line_sum(corpus_report::work_stats(lines))
            + corpus_report::work_stats(lines).len() == lines.len(),
{
    let at = law_works_count_their_own_lines(lines);
    let all = corpus_report::work_stats(lines);
    if all.len() > 0 {
        lemma_lines_up_to(lines, at, all.len() as int);
        assert(all.take(all.len() as int) =~= all);
    }
}

proof fn lemma_lines_up_to(lines: Seq<Seq<char>>, at: Seq<int>, k: int)
    requires
        aozora_laws::lists_headers(at, lines),
        corpus_report::work_stats(lines).len() == at.len(),
        forall|k: int|
            0 <= k < at.len() ==> (#[trigger] corpus_report::work_stats(lines)[k]).line_count == (
            if k == 0 {
                at[0]
            } else {
                0
            }) + aozora_laws::work_end(at, lines, k) - at[k] - 1,
        0 < k <= at.len(),
    ensures
        line_sum(corpus_report::work_stats(lines).take(k)) + k == aozora_laws::work_end(
            at,
            lines,
            k - 1,
        ),
    decreases k,
{
    let all = corpus_report::work_stats(lines);
    assert(all.take(k).drop_last() =~= all.take(k - 1));
    assert(all.take(k).last() == all[k - 1]);
    assert(line_sum(all.take(k)) == line_sum(all.take(k - 1)) + all[k - 1].line_count);
    assert(all[k - 1].line_count == (if k == 1 {
        at[0]
    } else {
        0
    }) + aozora_laws::work_end(at, lines, k - 1) - at[k - 1] - 1);
    if k > 1 {
        lemma_lines_up_to(lines, at, k - 1);
        assert(aozora_laws::work_end(at, lines, k - 2) == at[k - 1]);
    } else {
        assert(all.take(0) =~= Seq::empty());
    }
}

/// A passage is counted from its opening mark up to the next closing character, and
/// the count goes on behind it.
pub proof fn law_a_passage_is_counted(
    before: Seq<char>,
    open: Seq<char>,
    within: Seq<char>,
    close: char,
    after: Seq<char>,
)
    requires
        open.len() > 0,
        !(open + within).contains(close),
        forall|i: int|
            0 <= i < before.len() ==> !#[trigger] text_laws::stands_in(
                before + open + within + seq![close] + after,
                open,
                i,
            ),
    ensures
        ({
            let all = corpus_report::passages(
                before + open + within + seq![close] + after,
                open,
                close,
            );
            let rest = corpus_report::passages(after, open, close);
            &&& all.count == rest.count + 1
            &&& all.chars == rest.chars + open.len() + within.len() + 1
        }),
    decreases before.len(),
{
    let s = before + open + within + seq![close] + after;
    if before.len() == 0 {
        let n = (open.len() + within.len()) as int;
        assert forall|i: int| 0 <= i < n implies s[i] != close by {
            assert((open + within).contains((open + within)[i]));
            assert(s[i] == (open + within)[i]);
        }
        assert(s[n] == close);
        text::lemma_find_char_unique(s, close, n);
        assert(s.take(open.len() as int) =~= open);
        assert(s.skip(n + 1) =~= after);
    } else {
        let fewer = before.skip(1);
        let rest = fewer + open + within + seq![close] + after;
        assert(s.skip(1) =~= rest);
        assert(!text_laws::stands_in(s, open, 0));
        if open.len() <= s.len() {
            assert(s.take(open.len() as int) =~= s.subrange(0, open.len() as int));
        }
        assert forall|i: int| 0 <= i < fewer.len() implies !#[trigger] text_laws::stands_in(
            rest,
            open,
            i,
        ) by {
            assert(!text_laws::stands_in(s, open, i + 1));
            if i + open.len() <= rest.len() {
                assert(rest.subrange(i, i + open.len()) =~= s.subrange(i + 1, i + 1 + open.len()));
            }
        }
        law_a_passage_is_counted(fewer, open, within, close, after);
    }
}

/// Without the opening mark, or without the closing character, nothing is counted.
pub proof fn law_no_passage_without_its_marks(s: Seq<char>, open: Seq<char>, close: char)
    requires
        !s.contains(close) || forall|i: int| !#[trigger] text_laws::stands_in(s, open, i),
    ensures
        corpus_report::passages(s, open, close) == (Passages { count: 0, chars: 0 }),
    decreases s.len(),
{
    if s.len() > 0 {
        let rest = s.skip(1);
        text::lemma_find_char(s, close);
        let end = text::find_char(s, close);
        if s.contains(close) {
            assert(!text_laws::stands_in(s, open, 0));
            if open.len() <= s.len() {
                assert(s.take(open.len() as int) =~= s.subrange(0, open.len() as int));
            }
            assert forall|i: int| !#[trigger] text_laws::stands_in(rest, open, i) by {
                assert(!text_laws::stands_in(s, open, i + 1));
                if 0 <= i && i + open.len() <= rest.len() {
                    assert(rest.subrange(i, i + open.len()) =~= s.subrange(
                        i + 1,
                        i + 1 + open.len(),
                    ));
                }
            }
        } else {
            if end < s.len() {
                assert(s.contains(s[end]));
            }
            if rest.contains(close) {
                let i = choose|i: int| 0 <= i < rest.len() && rest[i] == close;
                assert(s[i + 1] == close);
            }
        }
        law_no_passage_without_its_marks(rest, open, close);
    }
}

/// A line gives a stage direction if a bracket opens behind its blanks.
pub proof fn law_stage_lines_open_a_bracket(line: Seq<char>)
    ensures
        corpus_report::stage_line(line) <==> exists|b: int|
            0 <= b < line.len() && (#[trigger] line[b] == '(' || line[b] == '（') && forall|i: int|
                0 <= i < b ==> CharClass::Blank.has(#[trigger] line[i]),
{
    let from = text_laws::law_trim_start_takes_the_class_off(line, CharClass::Blank);
    let s = line.skip(from);
    if corpus_report::stage_line(line) {
        assert(s[0] == line[from]);
    }
    if exists|b: int|
        0 <= b < line.len() && (#[trigger] line[b] == '(' || line[b] == '（') && forall|i: int|
            0 <= i < b ==> CharClass::Blank.has(#[trigger] line[i]) {
        let b = choose|b: int|
            0 <= b < line.len() && (#[trigger] line[b] == '(' || line[b] == '（') && forall|i: int|
                0 <= i < b ==> CharClass::Blank.has(#[trigger] line[i]);
        assert(!CharClass::Blank.has(line[b]));
        if from < b {
            assert(CharClass::Blank.has(line[from]));
        }
        assert(from == b);
        assert(s[0] == line[b]);
    }
}

/// Where the classes of lengths start.
pub open spec fn class_starts() -> Seq<nat> {
    seq![0nat, 1, 10, 50, 200, 500, 1000, 2000]
}

/// A length belongs to the last class that starts at it or before it.
pub proof fn law_lengths_fall_into_classes(n: nat)
    ensures
        0 <= corpus_report::length_class(n) < 8,
        class_starts()[corpus_report::length_class(n)] <= n,
        corpus_report::length_class(n) < 7 ==> n < class_starts()[corpus_report::length_class(n)
            + 1],
{
}

/// Lines are counted by their lengths.
pub proof fn law_classes_count_lines(lines: Seq<Seq<char>>, class: int)
    ensures
        0 <= class < 7 ==> corpus_report::lines_in_class(lines, class) == lines.filter(
            |l: Seq<char>| class_starts()[class] <= l.len() < class_starts()[class + 1],
        ).len(),
        corpus_report::lines_in_class(lines, 7) == lines.filter(
            |l: Seq<char>| l.len() >= 2000,
        ).len(),
        corpus_report::single_char_lines(lines) == lines.filter(
            |l: Seq<char>| l.len() == 1,
        ).len(),
    decreases lines.len(),
{
    reveal(Seq::filter);
    if lines.len() > 0 {
        law_classes_count_lines(lines.drop_last(), class);
        law_lengths_fall_into_classes(lines.last().len());
    }
}

/// Spoken lines and stage directions are counted with their characters.
pub proof fn law_drama_and_stage_lines_are_counted(lines: Seq<Seq<char>>)
    ensures
        ({
            let spoken = lines.filter(|l: Seq<char>| aozora::drama_speaker_line(l));
            let staged = lines.filter(|l: Seq<char>| corpus_report::stage_line(l));
            &&& corpus_report::drama_passages(lines).count == spoken.len()
            &&& corpus_report::drama_passages(lines).chars == spoken.flatten().len()
            &&& corpus_report::stage_passages(lines).count == staged.len()
            &&& corpus_report::stage_passages(lines).chars == staged.flatten().len()
        }),
    decreases lines.len(),
{
    reveal(Seq::filter);
    if lines.len() > 0 {
        let shorter = lines.drop_last();
        law_drama_and_stage_lines_are_counted(shorter);
        let spoken = shorter.filter(|l: Seq<char>| aozora::drama_speaker_line(l));
        let staged = shorter.filter(|l: Seq<char>| corpus_report::stage_line(l));
        spoken.lemma_flatten_push(lines.last());
        staged.lemma_flatten_push(lines.last());
    }
}

/// Shares are compared as fractions are; the share of a whole of nothing is none.
pub proof fn law_larger_shares_come_first(
    order: Seq<usize>,
    list: Seq<Share>,
    n: int,
    i: int,
    j: int,
)
    requires
        ranking::ranks(order, list, n),
        0 <= n <= list.len(),
        0 <= i < j < n,
    ensures
        ({
            let a = list[order[i] as int];
            let b = list[order[j] as int];
            &&& a.whole > 0 && b.whole > 0 ==> a.part * b.whole >= b.part * a.whole
            &&& a.whole > 0 && b.whole > 0 && a.part * b.whole == b.part * a.whole ==> order[i]
                < order[j]
            &&& a.whole == 0 && b.whole > 0 ==> b.part == 0
            &&& (a.whole == 0 || a.part == 0) && (b.whole == 0 || b.part == 0) ==> order[i]
                < order[j]
            &&& order[i] != order[j]
        }),
{
    let a = list[order[i] as int];
    let b = list[order[j] as int];
    assert(ranking::ranks_before(list, order[i] as int, order[j] as int));
    assert(b.part * 1 == b.part) by (nonlinear_arith);
    assert(0 * b.whole == 0) by (nonlinear_arith);
    assert(a.part * 1 == a.part) by (nonlinear_arith);
    assert(0 * a.whole == 0) by (nonlinear_arith);
    assert(0 * 1 == 0) by (nonlinear_arith);
}

/// The works listed are those with enough lines, in the order of their shares, from
/// the front.
pub proof fn law_top_works_are_the_first_with_enough_lines(
    list: Seq<WorkStat>,
    order: Seq<usize>,
    min_lines: nat,
    limit: nat,
)
    ensures
        ({
            let enough = order.filter(|i: usize| list[i as int].line_count >= min_lines);
            corpus_report::chosen(list, order, min_lines, limit) == enough.take(
                vstd::math::min(limit as int, enough.len() as int),
            )
        }),
    decreases order.len(),
{
    reveal(Seq::filter);
    let enough = order.filter(|i: usize| list[i as int].line_count >= min_lines);
    let m = vstd::math::min(limit as int, enough.len() as int);
    if order.len() > 0 {
        let shorter = order.drop_last();
        let before = shorter.filter(|i: usize| list[i as int].line_count >= min_lines);
        law_top_works_are_the_first_with_enough_lines(list, shorter, min_lines, limit);
        if before.len() < limit {
            assert(before.take(before.len() as int) =~= before);
            assert(enough.take(m) =~= enough);
        } else {
            assert(enough.take(m) =~= before.take(m));
        }
    } else {
        assert(enough.take(m) =~= Seq::empty());
    }
}

/// A header names the author between its bars and the title, without white space at the
/// ends.
pub proof fn law_headers_name_their_author(author: Seq<char>, rest: Seq<char>)
    requires
        !author.contains('『'),
    ensures
        corpus_report::named_author("===== "@ + author + seq!['『'] + rest) == Some(
            text::trim(author, CharClass::WhiteSpace),
        ),
{
    reveal_strlit("===== ");
    let bars = "===== "@;
    let line = bars + author + seq!['『'] + rest;
    let inner = line.skip(6);
    let n = author.len() as int;
    assert(line.take(6) =~= bars);
    assert forall|i: int| 0 <= i < n implies inner[i] != '『' by {
        assert(inner[i] == author[i]);
        assert(author.contains(author[i]));
    }
    assert(inner[n] == '『');
    text::lemma_find_char_unique(inner, '『', n);
    assert(inner.take(n) =~= author);
}

/// A line that names no author: it does not start as a header does, or has no title.
pub proof fn law_lines_that_name_no_author(line: Seq<char>)
    requires
        (forall|rest: Seq<char>| line != #[trigger] ("===== "@ + rest)) || !line.contains('『'),
    ensures
        corpus_report::named_author(line) is None,
{
    text_laws::law_starting_with_a_text(line, "===== "@);
    let rest = line.skip(6);
    reveal_strlit("===== ");
    if text::starts_with(line, "===== "@) && text::find_char(rest, '『') < rest.len() {
        text::lemma_find_char(rest, '『');
        assert(line[6 + text::find_char(rest, '『')] == '『');
    }
}

/// The lines behind a header run up: each with its newline.
proof fn lemma_body_runs(front: Seq<Seq<char>>, body: Seq<Seq<char>>)
    requires
        forall|i: int| 0 <= i < body.len() ==> !aozora::header_line(#[trigger] body[i]),
    ensures
        corpus_report::scan_authors(front + body) == (AuthorScan {
            run: corpus_report::scan_authors(front).run + aozora_laws::ended(body).len(),
            ..corpus_report::scan_authors(front)
        }),
    decreases body.len(),
{
    if body.len() == 0 {
        assert(front + body =~= front);
        assert(aozora_laws::ended(body) =~= Seq::empty());
    } else {
        let shorter = body.drop_last();
        assert forall|i: int| 0 <= i < shorter.len() implies !aozora::header_line(
            #[trigger] shorter[i],
        ) by {
            assert(shorter[i] == body[i]);
        }
        lemma_body_runs(front, shorter);
        assert((front + body).drop_last() =~= front + shorter);
        assert(!aozora::header_line(body[body.len() - 1]));
        aozora_laws::lemma_ended_push(shorter, body.last());
        assert(shorter.push(body.last()) =~= body);
    }
}

/// A header that names an author, and the lines behind it, count for that author: one
/// work more, and the characters of the lines, each with its newline. What was
/// counted before stays.
pub proof fn law_a_work_counts_for_its_author(
    front: Seq<Seq<char>>,
    header: Seq<char>,
    author: Seq<char>,
    body: Seq<Seq<char>>,
)
    requires
        aozora_laws::starts_a_work(header),
        corpus_report::named_author(header) == Some(author),
        forall|i: int| 0 <= i < body.len() ==> !aozora_laws::starts_a_work(#[trigger] body[i]),
    ensures
        ({
            let before = corpus_report::scan_authors(front).settled();
            let all = front + seq![header] + body;
            let had = if before.contains_key(author) {
                before[author]
            } else {
                TallyModel { works: 0, chars: 0 }
            };
            &&& corpus_report::scan_authors(all).settled() == before.insert(
                author,
                TallyModel {
                    works: had.works + 1,
                    chars: had.chars + aozora_laws::ended(body).len(),
                },
            )
            &&& corpus_report::scan_authors(all).header_chars == corpus_report::scan_authors(
                front,
            ).header_chars + header.len() + 1
        }),
{
    let led = front + seq![header];
    aozora_laws::law_headers_start_with_bars(header);
    assert(led.drop_last() =~= front);
    assert forall|i: int| 0 <= i < body.len() implies !aozora::header_line(#[trigger] body[i]) by {
        aozora_laws::law_headers_start_with_bars(body[i]);
    }
    lemma_body_runs(led, body);
    let before = corpus_report::scan_authors(front).settled();
    let had = if before.contains_key(author) {
        before[author]
    } else {
        TallyModel { works: 0, chars: 0 }
    };
    let after = corpus_report::scan_authors(led + body);
    assert(after.tallies[author] == (TallyModel { works: had.works + 1, chars: had.chars }));
    assert(after.settled() =~= before.insert(
        author,
        TallyModel { works: had.works + 1, chars: had.chars + aozora_laws::ended(body).len() },
    ));
}

/// Lines before the first header count for no author.
pub proof fn law_lines_before_headers_count_for_none(lines: Seq<Seq<char>>)
    requires
        forall|i: int| 0 <= i < lines.len() ==> !aozora_laws::starts_a_work(#[trigger] lines[i]),
    ensures
        corpus_report::scan_authors(lines).settled() == Map::<Seq<char>, TallyModel>::empty(),
        corpus_report::scan_authors(lines).header_chars == 0,
{
    let none = Seq::<Seq<char>>::empty();
    assert forall|i: int| 0 <= i < lines.len() implies !aozora::header_line(#[trigger] lines[i]) by {
        aozora_laws::law_headers_start_with_bars(lines[i]);
    }
    lemma_body_runs(none, lines);
    assert(none + lines =~= lines);
}

/// Where no line names an author, nothing is counted for any.
pub proof fn law_without_names_nothing_is_counted(lines: Seq<Seq<char>>)
    requires
        forall|i: int|
            0 <= i < lines.len() ==> corpus_report::named_author(#[trigger] lines[i]) is None,
    ensures
        corpus_report::scan_authors(lines).author is None,
        corpus_report::scan_authors(lines).settled() == Map::<Seq<char>, TallyModel>::empty(),
    decreases lines.len(),
{
    if lines.len() > 0 {
        let shorter = lines.drop_last();
        assert forall|i: int| 0 <= i < shorter.len() implies corpus_report::named_author(
            #[trigger] shorter[i],
        ) is None by {
            assert(corpus_report::named_author(lines[i]) is None);
        }
        law_without_names_nothing_is_counted(shorter);
        assert(corpus_report::named_author(lines[lines.len() - 1]) is None);
    }
}

/// A header that names no author starts no work of another: the lines behind it count for
/// the author who was named last, and those before it once more.
pub proof fn law_a_header_without_author_goes_on(
    front: Seq<Seq<char>>,
    header: Seq<char>,
    author: Seq<char>,
    first: Seq<Seq<char>>,
    nameless: Seq<char>,
    second: Seq<Seq<char>>,
)
    requires
        aozora_laws::starts_a_work(header),
        corpus_report::named_author(header) == Some(author),
        forall|i: int| 0 <= i < first.len() ==> !aozora_laws::starts_a_work(#[trigger] first[i]),
        aozora_laws::starts_a_work(nameless),
        corpus_report::named_author(nameless) is None,
        forall|i: int| 0 <= i < second.len() ==> !aozora_laws::starts_a_work(#[trigger] second[i]),
    ensures
        ({
            let before = corpus_report::scan_authors(front + seq![header] + first).settled();
            let all = corpus_report::scan_authors(
                front + seq![header] + first + seq![nameless] + second,
            );
            all.settled() == before.insert(
                author,
                TallyModel {
                    works: before[author].works,
                    chars: before[author].chars + aozora_laws::ended(first).len()
                        + aozora_laws::ended(second).len(),
                },
            )
        }),
{
    let led = front + seq![header];
    let middle = led + first;
    let next = middle + seq![nameless];
    aozora_laws::law_headers_start_with_bars(header);
    aozora_laws::law_headers_start_with_bars(nameless);
    assert(led.drop_last() =~= front);
    assert(next.drop_last() =~= middle);
    assert forall|i: int| 0 <= i < first.len() implies !aozora::header_line(#[trigger] first[i]) by {
        aozora_laws::law_headers_start_with_bars(first[i]);
    }
    assert forall|i: int| 0 <= i < second.len() implies !aozora::header_line(
        #[trigger] second[i],
    ) by {
        aozora_laws::law_headers_start_with_bars(second[i]);
    }
    lemma_body_runs(led, first);
    lemma_body_runs(next, second);
    let before = corpus_report::scan_authors(middle).settled();
    let all = corpus_report::scan_authors(next + second);
    assert(all.author == Some(author));
    assert(all.tallies == before);
    assert(all.run == aozora_laws::ended(first).len() + aozora_laws::ended(second).len());
    assert(all.settled() =~= before.insert(
        author,
        TallyModel {
            works: before[author].works,
            chars: before[author].chars + aozora_laws::ended(first).len() + aozora_laws::ended(
                second,
            ).len(),
        },
    ));
}

/// The authors with the most works come first; each is listed once.
pub proof fn law_authors_are_ordered_by_works(
    order: Seq<usize>,
    t: Seq<(Seq<char>, TallyModel)>,
    n: int,
    i: int,
    j: int,
)
    requires
        corpus_report::orders_authors(order, t, n),
        0 <= i < j < n,
    ensures
        order.len() == n,
        order[i] < n && order[j] < n,
        order[i] != order[j],
        t[order[i] as int].1.works >= t[order[j] as int].1.works,
        t[order[i] as int].1.works == t[order[j] as int].1.works ==> order[i] < order[j],
{
    assert(corpus_report::author_before(t, order[i] as int, order[j] as int));
}

} // verus!
