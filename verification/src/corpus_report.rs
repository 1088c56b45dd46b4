//! Measures of a corpus of Aozora Bunko works.

use vstd::prelude::*;

use crate::aozora::{self, is_drama_speaker_line};
use crate::ranking::{self, Share};
use crate::table::{self, Table};
use crate::text::{
    self, chars_of, has_prefix, position_of, split_lines, stands_at, string_of, trimmed_end,
    trimmed_start, CharClass,
};

verus! {

/// Passages of a text: how many there are, and how long they are together.
#[verifier::ext_equal]
pub struct Passages {
    pub count: nat,
    pub chars: nat,
}

/// The passages that start with `open` and end with the next `close`, taken
/// from the left.
pub open spec fn passages(s: Seq<char>, open: Seq<char>, close: char) -> Passages
    decreases s.len(),
{
    if s.len() == 0 {
        Passages { count: 0, chars: 0 }
    } else {
        let end = text::find_char(s, close);
        proof {
            text::lemma_find_char(s, close);
        }
        if text::starts_with(s, open) && end < s.len() {
            let rest = passages(s.skip(end + 1), open, close);
            Passages { count: rest.count + 1, chars: (rest.chars + end + 1) as nat }
        } else {
            passages(s.skip(1), open, close)
        }
    }
}

/// Passages take no more than the text.
proof fn lemma_passages_bounded(s: Seq<char>, open: Seq<char>, close: char)
    ensures
        passages(s, open, close).count <= s.len(),
        passages(s, open, close).chars <= s.len(),
    decreases s.len(),
{
    if s.len() > 0 {
        let end = text::find_char(s, close);
        text::lemma_find_char(s, close);
        if text::starts_with(s, open) && end < s.len() {
            lemma_passages_bounded(s.skip(end + 1), open, close);
        } else {
            lemma_passages_bounded(s.skip(1), open, close);
        }
    }
}

/// Counts the passages between `open` and `close`.
pub fn count_passages(s: &str, open: &str, close: char) -> (r: (usize, usize))
    ensures
        r.0 == passages(s@, open@, close).count,
        r.1 == passages(s@, open@, close).chars,
{
    let v: Vec<char> = chars_of(s);
    let mark: Vec<char> = chars_of(open);
    let n: usize = v.len();
    let mut count: usize = 0;
    let mut chars: usize = 0;
    let mut i: usize = 0;
    assert(v@.skip(0) =~= v@);
    while i < n
        invariant
            i <= n == v@.len(),
            v@ == s@,
            mark@ == open@,
            count + passages(v@.skip(i as int), open@, close).count == passages(
                s@,
                open@,
                close,
            ).count,
            chars + passages(v@.skip(i as int), open@, close).chars == passages(
                s@,
                open@,
                close,
            ).chars,
        decreases n - i,
    {
        let ghost rest = v@.skip(i as int);
        proof {
            lemma_passages_bounded(s@, open@, close);
            text::lemma_find_char(rest, close);
        }
        let mut next: usize = i + 1;
        if stands_at(&v, i, &mark) {
            let end: usize = position_of(&v, close, i);
            if end < n {
                assert(rest.skip(end - i + 1) =~= v@.skip(end + 1));
                next = end + 1;
                count = count + 1;
                chars = chars + (end - i + 1);
            }
        }
        assert(rest.skip(1) =~= v@.skip(i + 1));
        i = next;
    }
    assert(v@.skip(n as int) =~= Seq::empty());
    (count, chars)
}

/// Counts the passages between the characters `open` and `close`.
pub fn count_pattern(text: &str, open: char, close: char) -> (r: (usize, usize))
    ensures
        r.0 == passages(text@, seq![open], close).count,
        r.1 == passages(text@, seq![open], close).chars,
{
    let mark: String = text::string_of_char(open);
    count_passages(text, mark.as_str(), close)
}

/// A line that gives a stage direction: after blanks it opens a bracket.
pub open spec fn stage_line(line: Seq<char>) -> bool {
    let s = text::trim_start(line, CharClass::Blank);
    s.len() > 0 && (s[0] == '(' || s[0] == '（')
}

/// Tells whether a line gives a stage direction.
pub fn is_stage_line(line: &str) -> (r: bool)
    ensures
        r == stage_line(line@),
{
    let v: Vec<char> = chars_of(line);
    let n: usize = v.len();
    let start: usize = trimmed_start(&v, 0, n, CharClass::Blank);
    assert(v@.subrange(0, n as int) =~= line@);
    let ghost s = v@.subrange(start as int, n as int);
    if start == n {
        return false;
    }
    assert(s[0] == v@[start as int]);
    v[start] == '(' || v[start] == '（'
}

/// The class of a line's length: 0, up to 9, 49, 199, 499, 999, 1999, and more.
pub open spec fn length_class(n: nat) -> int {
    if n == 0 {
        0
    } else if n <= 9 {
        1
    } else if n <= 49 {
        2
    } else if n <= 199 {
        3
    } else if n <= 499 {
        4
    } else if n <= 999 {
        5
    } else if n <= 1999 {
        6
    } else {
        7
    }
}

/// The class of a line's length.
pub fn length_bin(n: usize) -> (r: usize)
    ensures
        r == length_class(n as nat),
{
    if n == 0 {
        0
    } else if n <= 9 {
        1
    } else if n <= 49 {
        2
    } else if n <= 199 {
        3
    } else if n <= 499 {
        4
    } else if n <= 999 {
        5
    } else if n <= 1999 {
        6
    } else {
        7
    }
}

/// The number of lines in a class of lengths.
pub open spec fn lines_in_class(lines: Seq<Seq<char>>, class: int) -> nat
    decreases lines.len(),
{
    if lines.len() == 0 {
        0
    } else {
        lines_in_class(lines.drop_last(), class) + (if length_class(lines.last().len()) == class {
            1nat
        } else {
            0
        })
    }
}

/// Counts the lines in each class of lengths.
pub fn length_bins(lines: &Vec<String>) -> (r: Vec<usize>)
    ensures
        r@.len() == 8,
        forall|c: int|
            0 <= c < 8 ==> (#[trigger] r@[c]) == lines_in_class(text::texts(lines@), c),
{
    let ghost all = text::texts(lines@);
    let mut r: Vec<usize> = Vec::new();
    let mut k: usize = 0;
    assert(all.take(0) =~= Seq::empty());
    while k < 8
        invariant
            k <= 8,
            r@.len() == k,
            all.take(0).len() == 0,
            forall|c: int| 0 <= c < k ==> (#[trigger] r@[c]) == 0,
        decreases 8 - k,
    {
        r.push(0);
        k += 1;
    }
    let mut i: usize = 0;
    while i < lines.len()
        invariant
            i <= lines@.len(),
            all == text::texts(lines@),
            r@.len() == 8,
            forall|c: int|
                0 <= c < 8 ==> (#[trigger] r@[c]) == lines_in_class(all.take(i as int), c),
            forall|c: int| 0 <= c < 8 ==> (#[trigger] r@[c]) <= i,
        decreases lines@.len() - i,
    {
        let ghost before = r@;
        let n: usize = text::char_count(lines[i].as_str());
        let c: usize = length_bin(n);
        r[c] = r[c] + 1;
        i += 1;
        proof {
            assert(all.take(i as int).drop_last() =~= all.take(i - 1));
            assert forall|d: int| 0 <= d < 8 implies (#[trigger] r@[d]) == lines_in_class(
                all.take(i as int),
                d,
            ) && r@[d] <= i by {
                assert(before[d] == lines_in_class(all.take(i - 1), d));
            }
        }
    }
    assert(all.take(i as int) =~= all);
    r
}

/// The number of lines of exactly one character.
pub open spec fn single_char_lines(lines: Seq<Seq<char>>) -> nat
    decreases lines.len(),
{
    if lines.len() == 0 {
        0
    } else {
        single_char_lines(lines.drop_last()) + (if lines.last().len() == 1 {
            1nat
        } else {
            0
        })
    }
}

/// Counts the lines of exactly one character.
pub fn count_single_char_lines(lines: &Vec<String>) -> (r: usize)
    ensures
        r == single_char_lines(text::texts(lines@)),
{
    let ghost all = text::texts(lines@);
    let mut r: usize = 0;
    let mut i: usize = 0;
    assert(all.take(0) =~= Seq::empty());
    while i < lines.len()
        invariant
            r <= i <= lines@.len(),
            all == text::texts(lines@),
            r == single_char_lines(all.take(i as int)),
        decreases lines@.len() - i,
    {
        let n: usize = text::char_count(lines[i].as_str());
        if n == 1 {
            r += 1;
        }
        i += 1;
        assert(all.take(i as int).drop_last() =~= all.take(i - 1));
    }
    assert(all.take(i as int) =~= all);
    r
}

/// Lines of exactly one character are among those of one to nine.
pub proof fn law_single_char_lines_are_short(lines: Seq<Seq<char>>)
    ensures
        single_char_lines(lines) <= lines_in_class(lines, 1),
    decreases lines.len(),
{
    if lines.len() > 0 {
        law_single_char_lines_are_short(lines.drop_last());
    }
}

/// Lines of a drama: how many, and how long together.
pub open spec fn drama_passages(lines: Seq<Seq<char>>) -> Passages
    decreases lines.len(),
{
    if lines.len() == 0 {
        Passages { count: 0, chars: 0 }
    } else {
        let p = drama_passages(lines.drop_last());
        if aozora::drama_speaker_line(lines.last()) {
            Passages { count: p.count + 1, chars: p.chars + lines.last().len() }
        } else {
            p
        }
    }
}

/// Lines that give stage directions: how many, and how long together.
pub open spec fn stage_passages(lines: Seq<Seq<char>>) -> Passages
    decreases lines.len(),
{
    if lines.len() == 0 {
        Passages { count: 0, chars: 0 }
    } else {
        let p = stage_passages(lines.drop_last());
        if stage_line(lines.last()) {
            Passages { count: p.count + 1, chars: p.chars + lines.last().len() }
        } else {
            p
        }
    }
}

/// The counted lines take no more than all lines.
proof fn lemma_line_passages_bounded(lines: Seq<Seq<char>>)
    ensures
        drama_passages(lines).count + drama_passages(lines).chars <= text::line_total(lines),
        stage_passages(lines).count + stage_passages(lines).chars <= text::line_total(lines),
    decreases lines.len(),
{
    if lines.len() > 0 {
        lemma_line_passages_bounded(lines.drop_last());
    }
}

/// Counts the lines of a drama and those that give stage directions.
fn count_lines(lines: &Vec<String>, Ghost(s): Ghost<Seq<char>>) -> (r: (
    (usize, usize),
    (usize, usize),
))
    requires
        text::texts(lines@) == text::lines(s),
        s.len() <= usize::MAX,
    ensures
        r.0.0 == drama_passages(text::lines(s)).count,
        r.0.1 == drama_passages(text::lines(s)).chars,
        r.1.0 == stage_passages(text::lines(s)).count,
        r.1.1 == stage_passages(text::lines(s)).chars,
{
    let ghost all = text::texts(lines@);
    let mut drama: (usize, usize) = (0, 0);
    let mut stage: (usize, usize) = (0, 0);
    let mut i: usize = 0;
    assert(all.take(0) =~= Seq::empty());
    while i < lines.len()
        invariant
            i <= lines@.len(),
            all == text::texts(lines@),
            all == text::lines(s),
            s.len() <= usize::MAX,
            drama.0 == drama_passages(all.take(i as int)).count,
            drama.1 == drama_passages(all.take(i as int)).chars,
            stage.0 == stage_passages(all.take(i as int)).count,
            stage.1 == stage_passages(all.take(i as int)).chars,
        decreases lines@.len() - i,
    {
        let line: &String = &lines[i];
        let n: usize = text::char_count(line.as_str());
        proof {
            assert(all.take(i + 1).drop_last() =~= all.take(i as int));
            lemma_line_passages_bounded(all.take(i + 1));
            lemma_line_passages_bounded(all.take(i as int));
            text::lemma_line_total_prefix(all, i + 1);
            text::lemma_lines_fit(s);
            assert(all.take(i + 1).last() == line@);
        }
        if is_drama_speaker_line(line.as_str()) {
            drama = (drama.0 + 1, drama.1 + n);
        }
        if is_stage_line(line.as_str()) {
            stage = (stage.0 + 1, stage.1 + n);
        }
        i += 1;
    }
    assert(all.take(i as int) =~= all);
    (drama, stage)
}

/// A work's header line with the numbers of its lines and of those of a drama.
pub struct WorkStat {
    pub title: String,
    pub line_count: usize,
    pub drama_count: usize,
}

/// What a `WorkStat` stands for.
#[verifier::ext_equal]
pub struct StatModel {
    pub title: Seq<char>,
    pub line_count: nat,
    pub drama_count: nat,
}

impl View for WorkStat {
    type V = StatModel;

    open spec fn view(&self) -> StatModel {
        StatModel {
            title: self.title@,
            line_count: self.line_count as nat,
            drama_count: self.drama_count as nat,
        }
    }
}

/// What a list of stats stands for.
pub open spec fn stats(list: Seq<WorkStat>) -> Seq<StatModel> {
    Seq::new(list.len(), |i: int| list[i]@)
}

/// The finished works, and the one that is being read. Before the first header
/// that one has no title; the lines before it count for the first work.
pub open spec fn read_stats(lines: Seq<Seq<char>>) -> (Seq<StatModel>, StatModel)
    decreases lines.len(),
{
    if lines.len() == 0 {
        (Seq::empty(), StatModel { title: Seq::empty(), line_count: 0, drama_count: 0 })
    } else {
        let (done, current) = read_stats(lines.drop_last());
        let line = lines.last();
        if aozora::header_line(line) {
            if current.title.len() == 0 {
                (done, StatModel { title: line, ..current })
            } else {
                (done.push(current), StatModel { title: line, line_count: 0, drama_count: 0 })
            }
        } else {
            (
                done,
                StatModel {
                    line_count: current.line_count + 1,
                    drama_count: current.drama_count + (if aozora::drama_speaker_line(line) {
                        1nat
                    } else {
                        0
                    }),
                    ..current
                },
            )
        }
    }
}

/// The stats of all works.
pub open spec fn work_stats(lines: Seq<Seq<char>>) -> Seq<StatModel> {
    let (done, current) = read_stats(lines);
    if current.title.len() == 0 {
        done
    } else {
        done.push(current)
    }
}

/// No work has more lines than there are.
proof fn lemma_stats_bounded(lines: Seq<Seq<char>>)
    ensures
        read_stats(lines).1.line_count <= lines.len(),
        read_stats(lines).1.drama_count <= lines.len(),
    decreases lines.len(),
{
    if lines.len() > 0 {
        lemma_stats_bounded(lines.drop_last());
    }
}

/// Counts the lines of each work.
pub fn count_works(lines: &Vec<String>) -> (r: Vec<WorkStat>)
    ensures
        stats(r@) == work_stats(text::texts(lines@)),
{
    let ghost all = text::texts(lines@);
    let mut done: Vec<WorkStat> = Vec::new();
    let mut current = WorkStat { title: String::new(), line_count: 0, drama_count: 0 };
    let mut i: usize = 0;
    proof {
        assert(all.take(0) =~= Seq::empty());
        assert(stats(done@) =~= Seq::empty());
    }
    while i < lines.len()
        invariant
            i <= lines@.len(),
            all == text::texts(lines@),
            stats(done@) == read_stats(all.take(i as int)).0,
            current@ == read_stats(all.take(i as int)).1,
        decreases lines@.len() - i,
    {
        let ghost done0 = stats(done@);
        let line: &String = &lines[i];
        proof {
            lemma_stats_bounded(all.take(i as int));
            assert(all.take(i + 1).drop_last() =~= all.take(i as int));
        }
        if has_prefix(line.as_str(), "=====") {
            if current.title.as_str().is_empty() {
                current.title = line.clone();
            } else {
                let ghost finished = current@;
                done.push(current);
                assert(stats(done@) =~= done0.push(finished));
                current = WorkStat { title: line.clone(), line_count: 0, drama_count: 0 };
            }
        } else {
            current.line_count = current.line_count + 1;
            if is_drama_speaker_line(line.as_str()) {
                current.drama_count = current.drama_count + 1;
            }
        }
        i += 1;
    }
    assert(all.take(i as int) =~= all);
    if !current.title.as_str().is_empty() {
        let ghost done0 = stats(done@);
        let ghost finished = current@;
        done.push(current);
        assert(stats(done@) =~= done0.push(finished));
    }
    done
}

/// The shares of drama lines of all works.
pub open spec fn shares(list: Seq<WorkStat>) -> Seq<Share> {
    Seq::new(
        list.len(),
        |i: int| Share { part: list[i].drama_count, whole: list[i].line_count },
    )
}

/// The works of at least `min_lines` lines, in the order of `order`, at most
/// `limit` of them.
pub open spec fn chosen(
    list: Seq<WorkStat>,
    order: Seq<usize>,
    min_lines: nat,
    limit: nat,
) -> Seq<usize>
    decreases order.len(),
{
    if order.len() == 0 {
        Seq::empty()
    } else {
        let before = chosen(list, order.drop_last(), min_lines, limit);
        if before.len() < limit && list[order.last() as int].line_count >= min_lines {
            before.push(order.last())
        } else {
            before
        }
    }
}

/// The works of at least `min_lines` lines with the largest shares of drama
/// lines, at most `limit` of them: their places in `list`.
pub fn top_dramas(list: &Vec<WorkStat>, min_lines: usize, limit: usize) -> (r: Vec<usize>)
    ensures
        exists|order: Seq<usize>|
            #![trigger chosen(list@, order, min_lines as nat, limit as nat)]
            ranking::ranks(order, shares(list@), list@.len() as int) && r@ == chosen(
                list@,
                order,
                min_lines as nat,
                limit as nat,
            ),
{
    let mut fractions: Vec<Share> = Vec::new();
    let mut i: usize = 0;
    while i < list.len()
        invariant
            i <= list@.len(),
            fractions@ == shares(list@).take(i as int),
        decreases list@.len() - i,
    {
        fractions.push(Share { part: list[i].drama_count, whole: list[i].line_count });
        i += 1;
        assert(fractions@ =~= shares(list@).take(i as int));
    }
    assert(fractions@ =~= shares(list@));
    let order: Vec<usize> = ranking::rank(&fractions);
    let mut r: Vec<usize> = Vec::new();
    let mut k: usize = 0;
    assert(order@.take(0) =~= Seq::empty());
    while k < order.len()
        invariant
            k <= order@.len(),
            ranking::ranks(order@, shares(list@), list@.len() as int),
            r@ == chosen(list@, order@.take(k as int), min_lines as nat, limit as nat),
        decreases order@.len() - k,
    {
        let at: usize = order[k];
        if r.len() < limit && list[at].line_count >= min_lines {
            r.push(at);
        }
        k += 1;
        assert(order@.take(k as int).drop_last() =~= order@.take(k - 1));
    }
    assert(order@.take(k as int) =~= order@);
    r
}

/// The works of an author, and the characters counted for them.
pub struct Tally {
    pub works: usize,
    pub chars: u128,
}

/// What a `Tally` stands for.
#[verifier::ext_equal]
pub struct TallyModel {
    pub works: nat,
    pub chars: nat,
}

impl DeepView for Tally {
    type V = TallyModel;

    open spec fn deep_view(&self) -> TallyModel {
        TallyModel { works: self.works as nat, chars: self.chars as nat }
    }
}

/// The author that a header line names: what stands between `===== ` and `『`.
pub open spec fn named_author(line: Seq<char>) -> Option<Seq<char>> {
    let rest = line.skip(6);
    if text::starts_with(line, "===== "@) && text::find_char(rest, '『') < rest.len() {
        Some(text::trim(rest.take(text::find_char(rest, '『')), CharClass::WhiteSpace))
    } else {
        None
    }
}

/// What a walk over lines has found of the authors.
#[verifier::ext_equal]
pub struct AuthorScan {
    /// The characters of all header lines.
    pub header_chars: nat,
    /// The number of header lines.
    pub headers: nat,
    /// The authors so far.
    pub tallies: Map<Seq<char>, TallyModel>,
    /// The author that the lines count for.
    pub author: Option<Seq<char>>,
    /// The characters since the author was named.
    pub run: nat,
}

impl AuthorScan {
    /// The characters since the author was named are counted for them.
    pub open spec fn settled(self) -> Map<Seq<char>, TallyModel> {
        match self.author {
            None => self.tallies,
            Some(a) => self.tallies.insert(
                a,
                TallyModel { chars: self.tallies[a].chars + self.run, ..self.tallies[a] },
            ),
        }
    }
}

/// What a walk over lines finds of the authors. A header line that names no
/// author counts the characters so far for the last one, and lets them stand.
pub open spec fn scan_authors(lines: Seq<Seq<char>>) -> AuthorScan
    decreases lines.len(),
{
    if lines.len() == 0 {
        AuthorScan { header_chars: 0, headers: 0, tallies: Map::empty(), author: None, run: 0 }
    } else {
        let before = scan_authors(lines.drop_last());
        let line = lines.last();
        if aozora::header_line(line) {
            let tallies = before.settled();
            let after = AuthorScan {
                header_chars: before.header_chars + line.len() + 1,
                headers: before.headers + 1,
                tallies,
                ..before
            };
            match named_author(line) {
                None => after,
                Some(a) => AuthorScan {
                    tallies: tallies.insert(
                        a,
                        if tallies.contains_key(a) {
                            TallyModel { works: tallies[a].works + 1, ..tallies[a] }
                        } else {
                            TallyModel { works: 1, chars: 0 }
                        },
                    ),
                    author: Some(a),
                    run: 0,
                    ..after
                },
            }
        } else {
            AuthorScan { run: before.run + line.len() + 1, ..before }
        }
    }
}

/// What the walk counts is bounded by the lines.
proof fn lemma_scan_bounded(lines: Seq<Seq<char>>, total: nat)
    requires
        text::line_total(lines) <= total,
    ensures
        scan_authors(lines).header_chars + scan_authors(lines).run <= text::line_total(lines),
        6 * scan_authors(lines).headers <= text::line_total(lines),
        forall|a: Seq<char>| #[trigger]
            scan_authors(lines).tallies.contains_key(a) ==> scan_authors(lines).tallies[a].works
                <= lines.len() && scan_authors(lines).tallies[a].chars <= scan_authors(
                lines,
            ).headers * total,
        scan_authors(lines).author matches Some(a) ==> scan_authors(lines).tallies.contains_key(a),
    decreases lines.len(),
{
    if lines.len() > 0 {
        let before = scan_authors(lines.drop_last());
        let after = scan_authors(lines);
        let line = lines.last();
        lemma_scan_bounded(lines.drop_last(), total);
        if aozora::header_line(line) {
            reveal_strlit("=====");
            assert(line.len() >= 5);
            assert(after.headers * total == before.headers * total + total) by (nonlinear_arith)
                requires
                    after.headers == before.headers + 1,
            ;
            assert forall|a: Seq<char>| #[trigger] after.tallies.contains_key(a) implies
                after.tallies[a].works <= lines.len() && after.tallies[a].chars <= after.headers
                * total by {
                if before.tallies.contains_key(a) {
                    assert(before.tallies[a].chars <= before.headers * total);
                }
                assert(0 <= after.headers * total) by (nonlinear_arith)
                    requires
                        after.headers >= 0,
                        total >= 0,
                ;
            }
        }
    }
}

/// The author that a header line names.
fn author_named_by(line: &str) -> (r: Option<String>)
    ensures
        match r {
            Some(a) => named_author(line@) == Some(a@),
            None => named_author(line@) is None,
        },
{
    proof {
        reveal_strlit("===== ");
    }
    if !has_prefix(line, "===== ") {
        return None;
    }
    let v: Vec<char> = chars_of(line);
    let n: usize = v.len();
    let at: usize = position_of(&v, '『', 6);
    let ghost rest = line@.skip(6);
    if at == n {
        return None;
    }
    let from: usize = trimmed_start(&v, 6, at, CharClass::WhiteSpace);
    let to: usize = trimmed_end(&v, from, at, CharClass::WhiteSpace);
    assert(v@.subrange(6, at as int) =~= rest.take(at - 6));
    Some(string_of(&v, from, to))
}

/// Counts `run` characters for `author`.
fn settle(tallies: &mut Table<Tally>, author: &Option<String>, run: u128)
    requires
        old(tallies).wf(),
        author matches Some(a) ==> old(tallies)@.contains_key(a@) && old(tallies)@[a@].chars + run
            <= u128::MAX,
    ensures
        final(tallies).wf(),
        final(tallies)@ == (match author {
            None => old(tallies)@,
            Some(a) => old(tallies)@.insert(
                a@,
                TallyModel {
                    chars: old(tallies)@[a@].chars + run as nat,
                    ..old(tallies)@[a@]
                },
            ),
        }),
{
    match author {
        None => {},
        Some(a) => {
            let next: Option<Tally> = match tallies.get(a.as_str()) {
                Some(t) => Some(Tally { works: t.works, chars: t.chars + run }),
                None => None,
            };
            match next {
                Some(t) => {
                    tallies.insert(a.as_str(), t);
                },
                None => {},
            }
        },
    }
}

/// Walks over the lines of a corpus and counts works and characters by author.
/// Returns the counts, and the characters of all header lines.
pub fn count_authors(lines: &Vec<String>, text: &str) -> (r: (Table<Tally>, u128))
    requires
        text::texts(lines@) == text::lines(text@),
    ensures
        r.0.wf(),
        r.0@ == scan_authors(text::lines(text@)).settled(),
        r.1 == scan_authors(text::lines(text@)).header_chars,
{
    let size: usize = text::char_count(text);
    let ghost all = text::texts(lines@);
    let ghost total = (size + 1) as nat;
    let mut tallies: Table<Tally> = Table::new();
    let mut author: Option<String> = None;
    let mut run: u128 = 0;
    let mut header_chars: u128 = 0;
    let mut i: usize = 0;
    proof {
        assert(all.take(0) =~= Seq::empty());
        text::lemma_lines_fit(text@);
    }
    while i < lines.len()
        invariant
            i <= lines@.len(),
            all == text::texts(lines@),
            text::line_total(all) <= total == size + 1,
            tallies.wf(),
            tallies@ == scan_authors(all.take(i as int)).tallies,
            run == scan_authors(all.take(i as int)).run,
            header_chars == scan_authors(all.take(i as int)).header_chars,
            match author {
                Some(a) => scan_authors(all.take(i as int)).author == Some(a@),
                None => scan_authors(all.take(i as int)).author is None,
            },
        decreases lines@.len() - i,
    {
        let ghost seen = all.take(i as int);
        let line: &String = &lines[i];
        let n: usize = text::char_count(line.as_str());
        proof {
            assert(all.take(i + 1).drop_last() =~= seen);
            assert(all.take(i + 1).last() == line@);
            text::lemma_line_total_prefix(all, i as int);
            text::lemma_line_total_prefix(all, i + 1);
            lemma_scan_bounded(seen, total);
            lemma_fits(scan_authors(seen).headers, total);
        }
        if has_prefix(line.as_str(), "=====") {
            settle(&mut tallies, &author, run);
            header_chars = header_chars + n as u128 + 1;
            match author_named_by(line.as_str()) {
                None => {},
                Some(a) => {
                    let next: Tally = match tallies.get(a.as_str()) {
                        Some(t) => Tally { works: t.works + 1, chars: t.chars },
                        None => Tally { works: 1, chars: 0 },
                    };
                    tallies.insert(a.as_str(), next);
                    author = Some(a);
                    run = 0;
                },
            }
        } else {
            run = run + n as u128 + 1;
        }
        i += 1;
    }
    proof {
        assert(all.take(i as int) =~= all);
        lemma_scan_bounded(all, total);
        lemma_fits(scan_authors(all).headers, total);
    }
    settle(&mut tallies, &author, run);
    (tallies, header_chars)
}

/// Sums over header lines fit a `u128`.
proof fn lemma_fits(headers: nat, total: nat)
    requires
        6 * headers <= total,
        total <= usize::MAX + 1,
    ensures
        headers * total + total <= u128::MAX,
{
    assert(headers * total + total <= u128::MAX) by (nonlinear_arith)
        requires
            6 * headers <= total,
            total <= 0x1_0000_0000_0000_0000,
    ;
}

/// Authors with the most works first; authors with as many works by name.
pub open spec fn author_before(t: Seq<(Seq<char>, TallyModel)>, a: int, b: int) -> bool {
    t[a].1.works > t[b].1.works || (t[a].1.works == t[b].1.works && a < b)
}

/// `order` lists the authors of `t`, those with the most works first.
pub open spec fn orders_authors(order: Seq<usize>, t: Seq<(Seq<char>, TallyModel)>, n: int) -> bool {
    &&& order.len() == n
    &&& forall|i: int| 0 <= i < order.len() ==> (#[trigger] order[i]) < n
    &&& forall|i: int, j: int|
        0 <= i < j < order.len() ==> author_before(
            t,
            #[trigger] order[i] as int,
            #[trigger] order[j] as int,
        )
}

/// The places of the authors in the table, those with the most works first.
pub fn order_authors(t: &Table<Tally>) -> (order: Vec<usize>)
    ensures
        orders_authors(order@, t.listing(), t.listing().len() as int),
{
    let ghost list = t.listing();
    let mut order: Vec<usize> = Vec::new();
    let total: usize = t.len();
    let mut n: usize = 0;
    while n < total
        invariant
            n <= total == list.len(),
            list == t.listing(),
            orders_authors(order@, list, n as int),
        decreases total - n,
    {
        let ghost before = order@;
        let works: usize = t.value_at(n).works;
        let mut at: usize = 0;
        while at < order.len() && works <= t.value_at(order[at]).works
            invariant
                at <= order@.len(),
                n < total == list.len(),
                list == t.listing(),
                works == list[n as int].1.works,
                order@ == before,
                orders_authors(order@, list, n as int),
                forall|i: int| 0 <= i < at ==> works <= list[#[trigger] order@[i] as int].1.works,
            decreases order@.len() - at,
        {
            at += 1;
        }
        order.insert(at, n);
        proof {
            assert forall|i: int, j: int| 0 <= i < j < order@.len() implies author_before(
                list,
                #[trigger] order@[i] as int,
                #[trigger] order@[j] as int,
            ) by {
                let i0 = if i < at {
                    i
                } else {
                    i - 1
                };
                let j0 = if j < at {
                    j
                } else {
                    j - 1
                };
                if i != at {
                    assert(order@[i] == before[i0]);
                }
                if j != at {
                    assert(order@[j] == before[j0]);
                }
                if i == at && j0 > at {
                    assert(author_before(list, before[at as int] as int, before[j0] as int));
                }
            }
            assert forall|i: int| 0 <= i < order@.len() implies (#[trigger] order@[i]) < n + 1 by {
                if i < at {
                    assert(order@[i] == before[i]);
                } else if i > at {
                    assert(order@[i] == before[i - 1]);
                }
            }
        }
        n += 1;
    }
    order
}

/// All measures of a corpus.
pub struct CorpusReport {
    pub total_chars: usize,
    pub total_lines: usize,
    /// The characters of all header lines.
    pub header_chars: u128,
    /// Works and characters by author.
    pub authors: Table<Tally>,
    /// The places of the authors in the table, those with the most works first.
    pub author_order: Vec<usize>,
    /// Readings between `《` and `》`: how many, and how many characters.
    pub ruby: (usize, usize),
    /// Annotations between `［＃` and `］`.
    pub annotations: (usize, usize),
    /// Lines of a drama.
    pub drama: (usize, usize),
    /// Lines that give stage directions.
    pub stage: (usize, usize),
    /// The number of lines of exactly one character.
    pub single_chars: usize,
    /// The number of lines in each class of lengths.
    pub bins: Vec<usize>,
    pub works: Vec<WorkStat>,
    /// The places of the works of at least 20 lines with the largest shares of
    /// drama lines, at most 20 of them.
    pub top: Vec<usize>,
}

/// A pair of numbers that count passages.
pub open spec fn measures(r: (usize, usize), p: Passages) -> bool {
    r.0 == p.count && r.1 == p.chars
}

/// Measures a corpus.
pub fn analyze(corpus: &str) -> (r: CorpusReport)
    ensures
        r.total_chars == corpus@.len(),
        r.total_lines == text::lines(corpus@).len(),
        r.header_chars == scan_authors(text::lines(corpus@)).header_chars,
        r.authors.wf(),
        r.authors@ == scan_authors(text::lines(corpus@)).settled(),
        orders_authors(r.author_order@, r.authors.listing(), r.authors.listing().len() as int),
        measures(r.ruby, passages(corpus@, seq!['《'], '》')),
        measures(r.annotations, passages(corpus@, "［＃"@, '］')),
        measures(r.drama, drama_passages(text::lines(corpus@))),
        measures(r.stage, stage_passages(text::lines(corpus@))),
        r.single_chars == single_char_lines(text::lines(corpus@)),
        r.bins@.len() == 8,
        forall|c: int|
            0 <= c < 8 ==> (#[trigger] r.bins@[c]) == lines_in_class(text::lines(corpus@), c),
        stats(r.works@) == work_stats(text::lines(corpus@)),
        exists|order: Seq<usize>|
            #![trigger chosen(r.works@, order, 20, 20)]
            ranking::ranks(order, shares(r.works@), r.works@.len() as int) && r.top@ == chosen(
                r.works@,
                order,
                20,
                20,
            ),
{
    let total_chars: usize = text::char_count(corpus);
    let lines: Vec<String> = split_lines(corpus);
    let total_lines: usize = lines.len();
    assert(text::texts(lines@).len() == lines@.len());
    let (authors, header_chars): (Table<Tally>, u128) = count_authors(&lines, corpus);
    let author_order: Vec<usize> = order_authors(&authors);
    let ruby: (usize, usize) = count_pattern(corpus, '《', '》');
    let annotations: (usize, usize) = count_passages(corpus, "［＃", '］');
    let (drama, stage): ((usize, usize), (usize, usize)) = count_lines(&lines, Ghost(corpus@));
    let single_chars: usize = count_single_char_lines(&lines);
    let bins: Vec<usize> = length_bins(&lines);
    let works: Vec<WorkStat> = count_works(&lines);
    let top: Vec<usize> = top_dramas(&works, 20, 20);
    CorpusReport {
        total_chars,
        total_lines,
        header_chars,
        authors,
        author_order,
        ruby,
        annotations,
        drama,
        stage,
        single_chars,
        bins,
        works,
        top,
    }
}

} // verus!
