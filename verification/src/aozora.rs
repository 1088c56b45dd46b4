//! Cleaning a corpus of Aozora Bunko works.
//!
//! A work starts with a line `===== author『title』 =====`. The cleaned corpus
//! holds, for each work,
//!
//! ```text
//! <BOS><AUTHOR=author><TITLE>title</TITLE>
//! body
//! <EOS>
//! ```
//!
//! and for a drama
//!
//! ```text
//! <BOS><AUTHOR=author><TITLE>title</TITLE><DRAMA>
//! body
//! </DRAMA><EOS>
//! ```

use vstd::prelude::*;

use crate::table::{self, comes_before};
use crate::text::{
    self, chars_of, has_prefix, position_of, split_lines, string_of, stripped, trimmed, trimmed_end,
    trimmed_start, CharClass,
};

verus! {

/// A work is a drama if at least 9 of 20 lines are spoken.
pub const DRAMA_SHARE: usize = 9;

pub const DRAMA_SHARE_OF: usize = 20;

/// A shorter work is never taken for a drama.
pub const DRAMA_MIN_LINES: usize = 20;

/// A Han character.
pub open spec fn kanji(c: char) -> bool {
    let u = c as u32;
    0x4e00 <= u <= 0x9fff || 0x3400 <= u <= 0x4dbf || 0x20000 <= u <= 0x2a6df
}

/// Tells whether `c` is a Han character.
pub fn is_kanji(c: char) -> (r: bool)
    ensures
        r == kanji(c),
{
    let u: u32 = c as u32;
    (0x4e00 <= u && u <= 0x9fff) || (0x3400 <= u && u <= 0x4dbf) || (0x20000 <= u && u <= 0x2a6df)
}

/// A katakana character.
pub open spec fn katakana(c: char) -> bool {
    let u = c as u32;
    0x30a0 <= u <= 0x30ff || 0x31f0 <= u <= 0x31ff
}

/// Tells whether `c` is a katakana character.
pub fn is_katakana(c: char) -> (r: bool)
    ensures
        r == katakana(c),
{
    let u: u32 = c as u32;
    (0x30a0 <= u && u <= 0x30ff) || (0x31f0 <= u && u <= 0x31ff)
}

/// A Han digit as chapters are numbered with.
pub open spec fn chapter_kanji_digit(c: char) -> bool {
    ||| c == '一'
    ||| c == '二'
    ||| c == '三'
    ||| c == '四'
    ||| c == '五'
    ||| c == '六'
    ||| c == '七'
    ||| c == '八'
    ||| c == '九'
    ||| c == '十'
    ||| c == '〇'
}

/// Tells whether `c` is a Han digit as chapters are numbered with.
pub fn is_chapter_kanji_digit(c: char) -> (r: bool)
    ensures
        r == chapter_kanji_digit(c),
{
    matches!(c, '一' | '二' | '三' | '四' | '五' | '六' | '七' | '八' | '九' | '十' | '〇')
}

/// What may stand in the number of a named chapter.
pub open spec fn chapter_digit(c: char) -> bool {
    ||| chapter_kanji_digit(c)
    ||| c == '百'
    ||| c == '千'
    ||| 0x30 <= c as u32 <= 0x39
    ||| 0xff10 <= c as u32 <= 0xff19
}

fn is_chapter_digit(c: char) -> (r: bool)
    ensures
        r == chapter_digit(c),
{
    let u: u32 = c as u32;
    is_chapter_kanji_digit(c) || c == '百' || c == '千' || (0x30 <= u && u <= 0x39) || (0xff10 <= u && u
        <= 0xff19)
}

/// The word that ends the name of a chapter.
pub open spec fn chapter_suffix(c: char) -> bool {
    ||| c == '章'
    ||| c == '節'
    ||| c == '部'
    ||| c == '編'
    ||| c == '話'
    ||| c == '巻'
    ||| c == '卷'
    ||| c == '回'
}

fn is_chapter_suffix(c: char) -> (r: bool)
    ensures
        r == chapter_suffix(c),
{
    matches!(c, '章' | '節' | '部' | '編' | '話' | '巻' | '卷' | '回')
}

/// A line that only numbers a chapter: up to three Han digits, or `第`, a number
/// and a word for a part, of up to six characters in all. Blanks around it do
/// not count.
pub open spec fn chapter_number_line(line: Seq<char>) -> bool {
    let t = text::trim(line, CharClass::Blank);
    &&& t.len() > 0
    &&& {
        ||| t.len() <= 3 && forall|i: int| 0 <= i < t.len() ==> chapter_kanji_digit(#[trigger] t[i])
        ||| {
            &&& 3 <= t.len() <= 6
            &&& t[0] == '第'
            &&& chapter_suffix(t.last())
            &&& forall|i: int| 1 <= i < t.len() - 1 ==> chapter_digit(#[trigger] t[i])
        }
    }
}

/// Tells whether a line only numbers a chapter.
pub fn is_chapter_number_line(line: &str) -> (r: bool)
    ensures
        r == chapter_number_line(line@),
{
    let trimmed: String = trimmed(line, CharClass::Blank);
    let t: Vec<char> = chars_of(trimmed.as_str());
    let n: usize = t.len();
    if n == 0 {
        return false;
    }
    if n <= 3 {
        let mut i: usize = 0;
        while i < n && is_chapter_kanji_digit(t[i])
            invariant
                i <= n == t@.len(),
                forall|j: int| 0 <= j < i ==> chapter_kanji_digit(#[trigger] t@[j]),
            decreases n - i,
        {
            i += 1;
        }
        if i == n {
            return true;
        }
        assert(!chapter_kanji_digit(t@[i as int]));
    }
    if n < 3 || n > 6 || t[0] != '第' || !is_chapter_suffix(t[n - 1]) {
        return false;
    }
    let mut i: usize = 1;
    while i < n - 1 && is_chapter_digit(t[i])
        invariant
            1 <= i <= n - 1,
            n == t@.len(),
            forall|j: int| 1 <= j < i ==> chapter_digit(#[trigger] t@[j]),
        decreases n - i,
    {
        i += 1;
    }
    if i < n - 1 {
        assert(!chapter_digit(t@[i as int]));
    }
    i == n - 1
}

/// The number of leading Han and katakana characters, at most `limit`.
pub open spec fn speaker_length(s: Seq<char>, limit: nat) -> nat
    decreases limit,
{
    if limit == 0 || s.len() == 0 || !(kanji(s[0]) || katakana(s[0])) {
        0
    } else {
        1 + speaker_length(s.skip(1), (limit - 1) as nat)
    }
}

/// What separates the speaker from the words spoken.
pub open spec fn speaker_separator(c: char) -> bool {
    c == '　' || c == ' ' || c == '、' || c == '。' || c == '：' || c == ':'
}

/// A line of a drama: after blanks one to six Han or katakana characters, a
/// separator, and something spoken behind it.
pub open spec fn drama_speaker_line(line: Seq<char>) -> bool {
    let s = text::trim_start(line, CharClass::Blank);
    let n = speaker_length(s, 6);
    &&& n > 0
    &&& s.len() >= n + 2
    &&& speaker_separator(s[n as int])
}

/// The speaker is part of the line.
proof fn lemma_speaker_length(s: Seq<char>, limit: nat, n: int)
    requires
        0 <= n <= limit,
        n <= s.len(),
        forall|i: int| 0 <= i < n ==> kanji(#[trigger] s[i]) || katakana(s[i]),
        n == limit || n == s.len() || !(kanji(s[n]) || katakana(s[n])),
    ensures
        speaker_length(s, limit) == n,
    decreases n,
{
    if n > 0 {
        let rest = s.skip(1);
        assert forall|i: int| 0 <= i < n - 1 implies kanji(#[trigger] rest[i]) || katakana(
            rest[i],
        ) by {
            assert(rest[i] == s[i + 1]);
        }
        assert(kanji(s[0]) || katakana(s[0]));
        if n < s.len() {
            assert(rest[n - 1] == s[n]);
        }
        lemma_speaker_length(rest, (limit - 1) as nat, n - 1);
    }
}

/// Tells whether a line is one of a drama.
pub fn is_drama_speaker_line(line: &str) -> (r: bool)
    ensures
        r == drama_speaker_line(line@),
{
    let v: Vec<char> = chars_of(line);
    let end: usize = v.len();
    let start: usize = trimmed_start(&v, 0, end, CharClass::Blank);
    let ghost s = v@.subrange(start as int, end as int);
    assert(v@.subrange(0, end as int) =~= line@);
    let mut n: usize = 0;
    while n < 6 && n < end - start && (is_kanji(v[start + n]) || is_katakana(v[start + n]))
        invariant
            n <= 6,
            start + n <= end == v@.len(),
            s == v@.subrange(start as int, end as int),
            forall|i: int| 0 <= i < n ==> kanji(#[trigger] s[i]) || katakana(s[i]),
        decreases 6 - n,
    {
        assert(s[n as int] == v@[start + n]);
        n += 1;
    }
    proof {
        if n < 6 && n < end - start {
            assert(s[n as int] == v@[start + n]);
        }
        lemma_speaker_length(s, 6, n as int);
    }
    if n == 0 || end - start < n + 2 {
        return false;
    }
    let c: char = v[start + n];
    assert(s[n as int] == c);
    matches!(c, '　' | ' ' | '、' | '。' | '：' | ':')
}

/// A work: its author, its title and the lines of its body.
pub struct Work {
    pub author: String,
    pub title: String,
    pub body_lines: Vec<String>,
}

/// What a `Work` stands for.
#[verifier::ext_equal]
pub struct WorkModel {
    pub author: Seq<char>,
    pub title: Seq<char>,
    pub body_lines: Seq<Seq<char>>,
}

impl View for Work {
    type V = WorkModel;

    open spec fn view(&self) -> WorkModel {
        WorkModel {
            author: self.author@,
            title: self.title@,
            body_lines: text::texts(self.body_lines@),
        }
    }
}

/// What a list of works stands for.
pub open spec fn models(works: Seq<Work>) -> Seq<WorkModel> {
    Seq::new(works.len(), |i: int| works[i]@)
}

/// Author and title of a header: what stands before `『`, and what stands
/// between it and the next `』`. Without `『` all of it is the author.
pub open spec fn header_parts(s: Seq<char>) -> (Seq<char>, Seq<char>) {
    let open = text::find_char(s, '『');
    if open >= s.len() {
        (s, Seq::empty())
    } else {
        let after = s.skip(open + 1);
        let close = text::find_char(after, '』');
        (
            text::trim(s.take(open), CharClass::WhiteSpace),
            text::trim(
                if close >= after.len() {
                    after
                } else {
                    after.take(close)
                },
                CharClass::WhiteSpace,
            ),
        )
    }
}

/// `v[start..end]` with white space trimmed off both ends.
fn trimmed_part(v: &Vec<char>, start: usize, end: usize) -> (r: String)
    requires
        start <= end <= v@.len(),
    ensures
        r@ == text::trim(v@.subrange(start as int, end as int), CharClass::WhiteSpace),
{
    let from: usize = trimmed_start(v, start, end, CharClass::WhiteSpace);
    let to: usize = trimmed_end(v, from, end, CharClass::WhiteSpace);
    string_of(v, from, to)
}

/// Takes a header apart into author and title.
pub fn parse_header(s: &str) -> (r: (String, String))
    ensures
        (r.0@, r.1@) == header_parts(s@),
{
    let v: Vec<char> = chars_of(s);
    let n: usize = v.len();
    assert(v@.skip(0) =~= v@);
    let open: usize = position_of(&v, '『', 0);
    if open == n {
        return (s.to_owned(), String::new());
    }
    let author: String = trimmed_part(&v, 0, open);
    let close: usize = position_of(&v, '』', open + 1);
    let title: String = trimmed_part(&v, open + 1, close);
    proof {
        let after = s@.skip(open + 1);
        text::lemma_find_char(after, '』');
        assert(v@.subrange(0, open as int) =~= s@.take(open as int));
        if close < n {
            assert(v@.subrange(open + 1, close as int) =~= after.take(close - open - 1));
        } else {
            assert(v@.subrange(open + 1, close as int) =~= after);
        }
    }
    (author, title)
}

/// The line starts a work.
pub open spec fn header_line(line: Seq<char>) -> bool {
    text::starts_with(line, "====="@)
}

/// A header line without its bars and the white space within them.
pub open spec fn header_text(line: Seq<char>) -> Seq<char> {
    text::trim(
        text::strip_suffixes(text::strip_prefixes(line, "====="@), "====="@),
        CharClass::WhiteSpace,
    )
}

/// The works that lines make. What stands before the first header belongs to
/// none.
pub open spec fn works_of(lines: Seq<Seq<char>>) -> Seq<WorkModel>
    decreases lines.len(),
{
    if lines.len() == 0 {
        Seq::empty()
    } else {
        let works = works_of(lines.drop_last());
        let line = lines.last();
        if header_line(line) {
            let (author, title) = header_parts(header_text(line));
            works.push(WorkModel { author, title, body_lines: Seq::empty() })
        } else if works.len() == 0 {
            works
        } else {
            works.update(
                works.len() - 1,
                WorkModel {
                    body_lines: works.last().body_lines.push(line),
                    ..works.last()
                },
            )
        }
    }
}

/// Splits a corpus into its works.
pub fn split_into_works(text: &str) -> (r: Vec<Work>)
    ensures
        models(r@) == works_of(text::lines(text@)),
{
    let lines: Vec<String> = split_lines(text);
    let ghost all = text::texts(lines@);
    let mut works: Vec<Work> = Vec::new();
    let mut i: usize = 0;
    proof {
        reveal_strlit("=====");
        assert(all.take(0) =~= Seq::empty());
        assert(models(works@) =~= works_of(all.take(0)));
    }
    while i < lines.len()
        invariant
            i <= lines@.len(),
            all == text::texts(lines@),
            "====="@.len() == 5,
            models(works@) == works_of(all.take(i as int)),
        decreases lines@.len() - i,
    {
        let ghost before = models(works@);
        let line: &String = &lines[i];
        if has_prefix(line.as_str(), "=====") {
            let bare: String = stripped(line.as_str(), "=====");
            let inner: String = trimmed(bare.as_str(), CharClass::WhiteSpace);
            let (author, title): (String, String) = parse_header(inner.as_str());
            let work = Work { author, title, body_lines: Vec::new() };
            assert(text::texts(work.body_lines@) =~= Seq::empty());
            let ghost model = work@;
            works.push(work);
            assert(models(works@) =~= before.push(model));
        } else if works.len() > 0 {
            let last: usize = works.len() - 1;
            let ghost body = text::texts(works@[last as int].body_lines@);
            works[last].body_lines.push(line.clone());
            proof {
                assert(text::texts(works@[last as int].body_lines@) =~= body.push(line@));
                assert(models(works@) =~= before.update(
                    last as int,
                    WorkModel { body_lines: body.push(line@), ..before[last as int] },
                ));
            }
        }
        i += 1;
        assert(all.take(i as int).drop_last() =~= all.take(i - 1));
    }
    assert(all.take(i as int) =~= all);
    works
}

/// The number of lines that are not empty.
pub open spec fn filled_lines(lines: Seq<Seq<char>>) -> nat
    decreases lines.len(),
{
    if lines.len() == 0 {
        0
    } else {
        filled_lines(lines.drop_last()) + (if lines.last().len() > 0 {
            1nat
        } else {
            0
        })
    }
}

/// The number of lines of a drama.
pub open spec fn drama_lines(lines: Seq<Seq<char>>) -> nat
    decreases lines.len(),
{
    if lines.len() == 0 {
        0
    } else {
        drama_lines(lines.drop_last()) + (if drama_speaker_line(lines.last()) {
            1nat
        } else {
            0
        })
    }
}

/// The number of lines that only number a chapter.
pub open spec fn chapter_lines(lines: Seq<Seq<char>>) -> nat
    decreases lines.len(),
{
    if lines.len() == 0 {
        0
    } else {
        chapter_lines(lines.drop_last()) + (if chapter_number_line(lines.last()) {
            1nat
        } else {
            0
        })
    }
}

/// All lines but those that only number a chapter, each with a newline.
pub open spec fn body_text(lines: Seq<Seq<char>>) -> Seq<char>
    decreases lines.len(),
{
    if lines.len() == 0 {
        Seq::empty()
    } else if chapter_number_line(lines.last()) {
        body_text(lines.drop_last())
    } else {
        body_text(lines.drop_last()) + lines.last() + seq!['\n']
    }
}

/// `s` with the newlines at its end cut down to one.
pub open spec fn one_final_newline(s: Seq<char>) -> Seq<char>
    decreases s.len(),
{
    if s.len() >= 2 && s[s.len() - 1] == '\n' && s[s.len() - 2] == '\n' {
        one_final_newline(s.drop_last())
    } else {
        s
    }
}

/// `s` with a newline at its end.
pub open spec fn with_newline(s: Seq<char>) -> Seq<char> {
    if s.len() > 0 && s.last() == '\n' {
        s
    } else {
        s.push('\n')
    }
}

impl WorkModel {
    /// At least 20 lines, of which at least 45 in a hundred are spoken.
    pub open spec fn is_drama(self) -> bool {
        &&& filled_lines(self.body_lines) >= DRAMA_MIN_LINES
        &&& DRAMA_SHARE_OF * drama_lines(self.body_lines) >= DRAMA_SHARE * filled_lines(
            self.body_lines,
        )
    }

    /// The body without chapter numbers and surplus newlines at its end.
    pub open spec fn body(self) -> Seq<char> {
        one_final_newline(body_text(self.body_lines))
    }

    /// The work in the cleaned corpus.
    pub open spec fn rendered(self) -> Seq<char> {
        let head = "<BOS><AUTHOR="@ + self.author + "><TITLE>"@ + self.title + "</TITLE>"@;
        if self.is_drama() {
            head + "<DRAMA>\n"@ + with_newline(self.body()) + "</DRAMA><EOS>\n"@
        } else {
            head + "\n"@ + with_newline(self.body()) + "<EOS>\n"@
        }
    }
}

/// The number of lines that are not empty, and of those of a drama, is at most
/// that of all lines.
proof fn lemma_counts_bounded(lines: Seq<Seq<char>>)
    ensures
        filled_lines(lines) <= lines.len(),
        drama_lines(lines) <= lines.len(),
        chapter_lines(lines) <= lines.len(),
    decreases lines.len(),
{
    if lines.len() > 0 {
        lemma_counts_bounded(lines.drop_last());
    }
}

impl Work {
    /// The number of lines that are not empty.
    pub fn line_count(&self) -> (r: usize)
        ensures
            r == filled_lines(self@.body_lines),
    {
        let ghost all = self@.body_lines;
        let mut r: usize = 0;
        let mut i: usize = 0;
        assert(all.take(0) =~= Seq::empty());
        while i < self.body_lines.len()
            invariant
                i <= self.body_lines@.len(),
                all == self@.body_lines,
                r == filled_lines(all.take(i as int)),
            decreases self.body_lines@.len() - i,
        {
            proof {
                lemma_counts_bounded(all.take(i as int));
                assert(all.take(i + 1).drop_last() =~= all.take(i as int));
            }
            if !self.body_lines[i].as_str().is_empty() {
                r += 1;
            }
            i += 1;
        }
        assert(all.take(i as int) =~= all);
        r
    }

    /// The number of lines of a drama.
    pub fn drama_count(&self) -> (r: usize)
        ensures
            r == drama_lines(self@.body_lines),
    {
        let ghost all = self@.body_lines;
        let mut r: usize = 0;
        let mut i: usize = 0;
        assert(all.take(0) =~= Seq::empty());
        while i < self.body_lines.len()
            invariant
                i <= self.body_lines@.len(),
                all == self@.body_lines,
                r == drama_lines(all.take(i as int)),
            decreases self.body_lines@.len() - i,
        {
            proof {
                lemma_counts_bounded(all.take(i as int));
                assert(all.take(i + 1).drop_last() =~= all.take(i as int));
            }
            if is_drama_speaker_line(self.body_lines[i].as_str()) {
                r += 1;
            }
            i += 1;
        }
        assert(all.take(i as int) =~= all);
        r
    }

    /// Tells whether the work is a drama.
    pub fn is_drama(&self) -> (r: bool)
        ensures
            r == self@.is_drama(),
    {
        let lines: usize = self.line_count();
        let spoken: usize = self.drama_count();
        lines >= DRAMA_MIN_LINES && (DRAMA_SHARE_OF as u128) * (spoken as u128) >= (
        DRAMA_SHARE as u128) * (lines as u128)
    }

    /// The body without chapter numbers, and the number of lines left out.
    pub fn normalized_body(&self) -> (r: (String, usize))
        ensures
            r.0@ == self@.body(),
            r.1 == chapter_lines(self@.body_lines),
    {
        let ghost all = self@.body_lines;
        let mut v: Vec<char> = Vec::new();
        let mut removed: usize = 0;
        let mut i: usize = 0;
        assert(all.take(0) =~= Seq::empty());
        assert(v@ =~= body_text(all.take(0)));
        while i < self.body_lines.len()
            invariant
                i <= self.body_lines@.len(),
                all == self@.body_lines,
                v@ == body_text(all.take(i as int)),
                removed == chapter_lines(all.take(i as int)),
            decreases self.body_lines@.len() - i,
        {
            let ghost before = v@;
            let line: &String = &self.body_lines[i];
            proof {
                lemma_counts_bounded(all.take(i as int));
                assert(all.take(i + 1).drop_last() =~= all.take(i as int));
            }
            if is_chapter_number_line(line.as_str()) {
                removed += 1;
            } else {
                let mut chars: Vec<char> = chars_of(line.as_str());
                v.append(&mut chars);
                v.push('\n');
                assert(v@ =~= before + line@ + seq!['\n']);
            }
            i += 1;
        }
        assert(all.take(i as int) =~= all);
        let mut end: usize = v.len();
        assert(v@.take(end as int) =~= v@);
        while end >= 2 && v[end - 1] == '\n' && v[end - 2] == '\n'
            invariant
                end <= v@.len(),
                one_final_newline(v@.take(end as int)) == one_final_newline(v@),
            decreases end,
        {
            assert(v@.take(end as int).drop_last() =~= v@.take(end - 1));
            end -= 1;
        }
        assert(v@.subrange(0, end as int) =~= v@.take(end as int));
        (string_of(&v, 0, end), removed)
    }

    /// Appends the work to the cleaned corpus. Returns the number of chapter
    /// lines left out and the length of the body.
    pub fn render(&self, out: &mut String) -> (r: (usize, usize))
        ensures
            final(out)@ == old(out)@ + self@.rendered(),
            r.0 == chapter_lines(self@.body_lines),
            r.1 == self@.body().len(),
    {
        let drama: bool = self.is_drama();
        let (body, removed): (String, usize) = self.normalized_body();
        let chars: Vec<char> = chars_of(body.as_str());
        let n: usize = chars.len();
        let ends: bool = n > 0 && chars[n - 1] == '\n';
        out.append("<BOS><AUTHOR=");
        out.append(self.author.as_str());
        out.append("><TITLE>");
        out.append(self.title.as_str());
        out.append("</TITLE>");
        if drama {
            out.append("<DRAMA>\n");
        } else {
            out.append("\n");
        }
        out.append(body.as_str());
        if !ends {
            out.push('\n');
        }
        if drama {
            out.append("</DRAMA><EOS>\n");
        } else {
            out.append("<EOS>\n");
        }
        assert(out@ =~= old(out)@ + self@.rendered());
        (removed, n)
    }
}

/// The works in the cleaned corpus, one behind the other.
pub open spec fn rendered_all(works: Seq<WorkModel>) -> Seq<char>
    decreases works.len(),
{
    if works.len() == 0 {
        Seq::empty()
    } else {
        rendered_all(works.drop_last()) + works.last().rendered()
    }
}

/// The lengths of the bodies of all dramas, or of all other works.
pub open spec fn body_chars(works: Seq<WorkModel>, drama: bool) -> nat
    decreases works.len(),
{
    if works.len() == 0 {
        0
    } else {
        body_chars(works.drop_last(), drama) + (if works.last().is_drama() == drama {
            works.last().body().len()
        } else {
            0
        })
    }
}

/// The number of dramas.
pub open spec fn drama_works(works: Seq<WorkModel>) -> nat
    decreases works.len(),
{
    if works.len() == 0 {
        0
    } else {
        drama_works(works.drop_last()) + (if works.last().is_drama() {
            1nat
        } else {
            0
        })
    }
}

/// The number of chapter lines in all works.
pub open spec fn removed_lines(works: Seq<WorkModel>) -> nat
    decreases works.len(),
{
    if works.len() == 0 {
        0
    } else {
        removed_lines(works.drop_last()) + chapter_lines(works.last().body_lines)
    }
}

/// The number of works of an author.
pub open spec fn works_by(works: Seq<WorkModel>, author: Seq<char>) -> nat
    decreases works.len(),
{
    if works.len() == 0 {
        0
    } else {
        works_by(works.drop_last(), author) + (if works.last().author == author {
            1nat
        } else {
            0
        })
    }
}

/// The lengths of the bodies of an author's works.
pub open spec fn chars_by(works: Seq<WorkModel>, author: Seq<char>) -> nat
    decreases works.len(),
{
    if works.len() == 0 {
        0
    } else {
        chars_by(works.drop_last(), author) + (if works.last().author == author {
            works.last().body().len()
        } else {
            0
        })
    }
}

/// What a corpus holds of one author.
pub struct AuthorShare {
    pub author: String,
    pub works: usize,
    pub chars: u128,
}

/// `shares` holds each author of `works` once, with the number and the size of
/// their works.
pub open spec fn counts_authors(shares: Seq<AuthorShare>, works: Seq<WorkModel>) -> bool {
    &&& forall|i: int|
        0 <= i < shares.len() ==> (#[trigger] shares[i]).works == works_by(works, shares[i].author@)
            && shares[i].chars == chars_by(works, shares[i].author@) && shares[i].works > 0
    &&& forall|i: int, j: int|
        0 <= i < j < shares.len() ==> (#[trigger] shares[i]).author@ != (
        #[trigger] shares[j]).author@
    &&& forall|k: int| 0 <= k < works.len() ==> lists_author(shares, (#[trigger] works[k]).author)
}

/// The author has a share.
pub open spec fn lists_author(shares: Seq<AuthorShare>, author: Seq<char>) -> bool {
    exists|i: int| 0 <= i < shares.len() && (#[trigger] shares[i]).author@ == author
}

/// `a` comes before `b` in the list of authors: more text first, then by name.
pub open spec fn share_before(a: AuthorShare, b: AuthorShare) -> bool {
    a.chars > b.chars || (a.chars == b.chars && table::before(a.author@, b.author@))
}

/// Each share comes before the next.
pub open spec fn shares_in_order(shares: Seq<AuthorShare>) -> bool {
    forall|i: int, j: int|
        0 <= i < j < shares.len() ==> share_before(#[trigger] shares[i], #[trigger] shares[j])
}

/// What cleaning a corpus gives.
pub struct CleanCorpus {
    /// The cleaned corpus.
    pub output: String,
    /// The number of dramas.
    pub drama_count: usize,
    /// The number of characters in the bodies of dramas.
    pub drama_chars: u128,
    /// The number of characters in the bodies of all other works.
    pub prose_chars: u128,
    /// The number of chapter lines left out.
    pub removed_chapters: u128,
    /// The authors, the one with the most text first.
    pub authors: Vec<AuthorShare>,
}

proof fn lemma_absent_author(works: Seq<WorkModel>, author: Seq<char>)
    requires
        forall|k: int| 0 <= k < works.len() ==> (#[trigger] works[k]).author != author,
    ensures
        works_by(works, author) == 0,
        chars_by(works, author) == 0,
    decreases works.len(),
{
    if works.len() > 0 {
        assert forall|k: int| 0 <= k < works.drop_last().len() implies (
        #[trigger] works.drop_last()[k]).author != author by {
            assert(works.drop_last()[k] == works[k]);
        }
        assert(works[works.len() - 1].author != author);
        lemma_absent_author(works.drop_last(), author);
    }
}

/// Adds one work to the shares.
fn add_share(
    shares: &mut Vec<AuthorShare>,
    work: &Work,
    chars: usize,
    Ghost(works): Ghost<Seq<WorkModel>>,
)
    requires
        counts_authors(old(shares)@, works),
        chars == work@.body().len(),
        works.len() < usize::MAX,
        forall|a: Seq<char>| #[trigger] chars_by(works, a) <= works.len() * usize::MAX,
        forall|a: Seq<char>| #[trigger] works_by(works, a) <= works.len(),
    ensures
        counts_authors(final(shares)@, works.push(work@)),
{
    let ghost all = works.push(work@);
    let ghost author = work.author@;
    let ghost before = shares@;
    proof {
        assert(all.drop_last() =~= works);
        assert(works.len() * usize::MAX + usize::MAX <= u128::MAX) by (nonlinear_arith)
            requires
                works.len() < usize::MAX,
        ;
    }
    let mut i: usize = 0;
    while i < shares.len() && !shares[i].author.eq(&work.author)
        invariant
            i <= shares@.len(),
            shares@ == before,
            forall|j: int| 0 <= j < i ==> (#[trigger] shares@[j]).author@ != work.author@,
        decreases shares@.len() - i,
    {
        i += 1;
    }
    if i < shares.len() {
        proof {
            assert(before[i as int].chars == chars_by(works, author));
            assert(before[i as int].works == works_by(works, author));
        }
        shares[i].works = shares[i].works + 1;
        shares[i].chars = shares[i].chars + chars as u128;
        assert forall|j: int| 0 <= j < shares@.len() implies (#[trigger] shares@[j]).works
            == works_by(all, shares@[j].author@) && shares@[j].chars == chars_by(
            all,
            shares@[j].author@,
        ) && shares@[j].works > 0 by {
            assert(before[j].works > 0);
            if j != i {
                assert(before[j].author@ != before[i as int].author@);
            }
        }
        assert forall|j: int, k: int| 0 <= j < k < shares@.len() implies (
        #[trigger] shares@[j]).author@ != (#[trigger] shares@[k]).author@ by {
            assert(before[j].author@ != before[k].author@);
        }
        assert forall|k: int| 0 <= k < all.len() implies lists_author(
            shares@,
            (#[trigger] all[k]).author,
        ) by {
            if k < works.len() {
                assert(all[k] == works[k]);
                let j = choose|j: int|
                    0 <= j < before.len() && (#[trigger] before[j]).author@ == works[k].author;
                assert(shares@[j].author@ == all[k].author);
            } else {
                assert(shares@[i as int].author@ == all[k].author);
            }
        }
    } else {
        proof {
            assert forall|k: int| 0 <= k < works.len() implies (#[trigger] works[k]).author
                != author by {
                let j = choose|j: int|
                    0 <= j < before.len() && (#[trigger] before[j]).author@ == works[k].author;
                assert(before[j].author@ != author);
            }
            lemma_absent_author(works, author);
        }
        shares.push(AuthorShare { author: work.author.clone(), works: 1, chars: chars as u128 });
        assert forall|j: int| 0 <= j < shares@.len() implies (#[trigger] shares@[j]).works
            == works_by(all, shares@[j].author@) && shares@[j].chars == chars_by(
            all,
            shares@[j].author@,
        ) && shares@[j].works > 0 by {
            if j < before.len() {
                assert(shares@[j] == before[j]);
                assert(before[j].author@ != author);
            }
        }
        assert forall|j: int, k: int| 0 <= j < k < shares@.len() implies (
        #[trigger] shares@[j]).author@ != (#[trigger] shares@[k]).author@ by {
            assert(shares@[j] == before[j]);
            if k < before.len() {
                assert(shares@[k] == before[k]);
            }
        }
        assert forall|k: int| 0 <= k < all.len() implies lists_author(
            shares@,
            (#[trigger] all[k]).author,
        ) by {
            if k < works.len() {
                assert(all[k] == works[k]);
                let j = choose|j: int|
                    0 <= j < before.len() && (#[trigger] before[j]).author@ == works[k].author;
                assert(shares@[j].author@ == all[k].author);
            } else {
                assert(shares@[before.len() as int].author@ == all[k].author);
            }
        }
    }
}

/// No author stands twice in the list.
spec fn authors_differ(shares: Seq<AuthorShare>) -> bool {
    forall|i: int, j: int|
        0 <= i < j < shares.len() ==> (#[trigger] shares[i]).author@ != (
        #[trigger] shares[j]).author@
}

/// Tells whether `a` comes before `b` in the list of authors.
fn is_share_before(a: &AuthorShare, b: &AuthorShare) -> (r: bool)
    ensures
        r == share_before(*a, *b),
{
    a.chars > b.chars || (a.chars == b.chars && comes_before(a.author.as_str(), b.author.as_str()))
}

proof fn lemma_share_order(a: AuthorShare, b: AuthorShare, c: AuthorShare)
    ensures
        share_before(a, b) && share_before(b, c) ==> share_before(a, c),
        a.author@ != b.author@ ==> share_before(a, b) || share_before(b, a),
{
    if share_before(a, b) && share_before(b, c) && a.chars == c.chars {
        table::lemma_before_transitive(a.author@, b.author@, c.author@);
    }
    table::lemma_before_total(a.author@, b.author@);
}

/// Puts a share into its place in an ordered list.
fn insert_share(list: &mut Vec<AuthorShare>, x: AuthorShare)
    requires
        shares_in_order(old(list)@),
        forall|i: int| 0 <= i < old(list)@.len() ==> (#[trigger] old(list)@[i]).author@ != x.author@,
    ensures
        shares_in_order(final(list)@),
        final(list)@.len() == old(list)@.len() + 1,
        forall|y: AuthorShare| final(list)@.contains(y) <==> old(list)@.contains(y) || y == x,
{
    let ghost before = list@;
    let mut at: usize = 0;
    while at < list.len() && is_share_before(&list[at], &x)
        invariant
            at <= list@.len(),
            list@ == before,
            forall|i: int| 0 <= i < at ==> share_before(#[trigger] list@[i], x),
        decreases list@.len() - at,
    {
        at += 1;
    }
    let ghost value = x;
    list.insert(at, x);
    proof {
        let after = list@;
        assert forall|i: int, j: int| 0 <= i < j < after.len() implies share_before(
            #[trigger] after[i],
            #[trigger] after[j],
        ) by {
            let i0 = if i < at {
                i
            } else {
                i - 1
            };
            let j0 = if j < at {
                j
            } else {
                j - 1
            };
            if i != at {
                assert(after[i] == before[i0]);
            }
            if j != at {
                assert(after[j] == before[j0]);
            }
            if i == at {
                lemma_share_order(value, before[at as int], before[j0]);
            } else if j != at {
                assert(share_before(before[i0], before[j0]));
            }
        }
        assert forall|y: AuthorShare| after.contains(y) <==> before.contains(y) || y == value by {
            assert(after[at as int] == value);
            if before.contains(y) {
                let k = choose|k: int| 0 <= k < before.len() && before[k] == y;
                if k < at {
                    assert(after[k] == y);
                } else {
                    assert(after[k + 1] == y);
                }
            }
            if after.contains(y) && y != value {
                let k = choose|k: int| 0 <= k < after.len() && after[k] == y;
                if k < at {
                    assert(before[k] == y);
                } else {
                    assert(before[k - 1] == y);
                }
            }
        }
    }
}

/// Orders the shares: more text first, then by name.
fn sort_shares(shares: Vec<AuthorShare>, Ghost(works): Ghost<Seq<WorkModel>>) -> (r: Vec<
    AuthorShare,
>)
    requires
        counts_authors(shares@, works),
    ensures
        counts_authors(r@, works),
        shares_in_order(r@),
{
    let ghost all = shares@;
    let mut rest: Vec<AuthorShare> = shares;
    let mut r: Vec<AuthorShare> = Vec::new();
    assert(rest@ + r@ =~= all);
    while rest.len() > 0
        invariant
            shares_in_order(r@),
            authors_differ(rest@),
            forall|i: int, j: int|
                0 <= i < rest@.len() && 0 <= j < r@.len() ==> (#[trigger] rest@[i]).author@ != (
                #[trigger] r@[j]).author@,
            forall|x: AuthorShare| all.contains(x) <==> rest@.contains(x) || r@.contains(x),
        decreases rest@.len(),
    {
        let ghost rest0 = rest@;
        let ghost r0 = r@;
        match rest.pop() {
            None => {},
            Some(x) => {
                let ghost value = x;
                proof {
                    assert(rest0.last() == value);
                    assert(rest0[rest0.len() - 1] == value);
                    assert(rest@ =~= rest0.drop_last());
                }
                insert_share(&mut r, x);
                proof {
                    assert forall|i: int, j: int|
                        0 <= i < rest@.len() && 0 <= j < r@.len() implies (
                    #[trigger] rest@[i]).author@ != (#[trigger] r@[j]).author@ by {
                        assert(rest@[i] == rest0[i]);
                        assert(r@.contains(r@[j]));
                        if r@[j] != value {
                            let k = choose|k: int| 0 <= k < r0.len() && r0[k] == r@[j];
                            assert(rest0[i].author@ != r0[k].author@);
                        } else {
                            assert(rest0[i].author@ != rest0[rest0.len() - 1].author@);
                        }
                    }
                    assert forall|y: AuthorShare| all.contains(y) <==> rest@.contains(y)
                        || r@.contains(y) by {
                        if rest0.contains(y) && y != value {
                            let k = choose|k: int| 0 <= k < rest0.len() && rest0[k] == y;
                            assert(rest@[k] == y);
                        }
                        if rest@.contains(y) {
                            let k = choose|k: int| 0 <= k < rest@.len() && rest@[k] == y;
                            assert(rest0[k] == y);
                        }
                        assert(rest0.contains(value));
                    }
                }
            },
        }
    }
    proof {
        assert forall|x: AuthorShare| all.contains(x) <==> r@.contains(x) by {
            assert(!rest@.contains(x));
        }
        assert forall|i: int| 0 <= i < r@.len() implies (#[trigger] r@[i]).works == works_by(
            works,
            r@[i].author@,
        ) && r@[i].chars == chars_by(works, r@[i].author@) && r@[i].works > 0 by {
            assert(r@.contains(r@[i]));
            assert(all.contains(r@[i]));
            let k = choose|k: int| 0 <= k < all.len() && all[k] == r@[i];
            assert(all[k].works > 0);
        }
        assert forall|i: int, j: int| 0 <= i < j < r@.len() implies (#[trigger] r@[i]).author@ != (
        #[trigger] r@[j]).author@ by {
            assert(share_before(r@[i], r@[j]));
            assert(r@[i].chars == chars_by(works, r@[i].author@));
            assert(r@[j].chars == chars_by(works, r@[j].author@));
            table::lemma_before_irreflexive(r@[i].author@);
        }
        assert forall|k: int| 0 <= k < works.len() implies lists_author(
            r@,
            (#[trigger] works[k]).author,
        ) by {
            assert(lists_author(all, works[k].author));
            let j = choose|j: int|
                0 <= j < all.len() && (#[trigger] all[j]).author@ == works[k].author;
            assert(all.contains(all[j]));
            assert(r@.contains(all[j]));
            let i = choose|i: int| 0 <= i < r@.len() && r@[i] == all[j];
            assert(r@[i].author@ == works[k].author);
        }
    }
    r
}

/// The sums stay in range.
proof fn lemma_sums_bounded(works: Seq<WorkModel>, limit: nat)
    requires
        forall|k: int|
            0 <= k < works.len() ==> (#[trigger] works[k]).body().len() <= limit && chapter_lines(
                works[k].body_lines,
            ) <= limit,
    ensures
        forall|a: Seq<char>| #[trigger] chars_by(works, a) <= works.len() * limit,
        forall|a: Seq<char>| #[trigger] works_by(works, a) <= works.len(),
        body_chars(works, true) <= works.len() * limit,
        body_chars(works, false) <= works.len() * limit,
        removed_lines(works) <= works.len() * limit,
        drama_works(works) <= works.len(),
    decreases works.len(),
{
    if works.len() > 0 {
        let shorter = works.drop_last();
        assert forall|k: int| 0 <= k < shorter.len() implies (#[trigger] shorter[k]).body().len()
            <= limit && chapter_lines(shorter[k].body_lines) <= limit by {
            assert(shorter[k] == works[k]);
        }
        lemma_sums_bounded(shorter, limit);
        assert(works[works.len() - 1] == works.last());
        assert(works.len() * limit == shorter.len() * limit + limit) by (nonlinear_arith)
            requires
                works.len() == shorter.len() + 1,
        ;
        assert forall|a: Seq<char>| #[trigger] chars_by(works, a) <= works.len() * limit by {
            assert(chars_by(shorter, a) <= shorter.len() * limit);
        }
        assert forall|a: Seq<char>| #[trigger] works_by(works, a) <= works.len() by {
            assert(works_by(shorter, a) <= shorter.len());
        }
    } else {
        assert(works.len() * limit == 0) by (nonlinear_arith)
            requires
                works.len() == 0,
        ;
    }
}

/// Cleans a corpus.
pub fn clean_corpus(text: &str) -> (r: CleanCorpus)
    ensures
        ({
            let works = works_of(text::lines(text@));
            &&& r.output@ == rendered_all(works)
            &&& r.drama_count == drama_works(works)
            &&& r.drama_chars == body_chars(works, true)
            &&& r.prose_chars == body_chars(works, false)
            &&& r.removed_chapters == removed_lines(works)
            &&& counts_authors(r.authors@, works)
            &&& shares_in_order(r.authors@)
        }),
{
    let works: Vec<Work> = split_into_works(text);
    let n: usize = works.len();
    let ghost all = models(works@);
    let mut output: String = String::new();
    let mut drama_count: usize = 0;
    let mut drama_chars: u128 = 0;
    let mut prose_chars: u128 = 0;
    let mut removed_chapters: u128 = 0;
    let mut shares: Vec<AuthorShare> = Vec::new();
    let mut i: usize = 0;
    assert(all.take(0) =~= Seq::empty());
    assert(output@ =~= rendered_all(all.take(0)));
    while i < n
        invariant
            i <= n == works@.len(),
            all == models(works@),
            output@ == rendered_all(all.take(i as int)),
            drama_count == drama_works(all.take(i as int)),
            drama_chars == body_chars(all.take(i as int), true),
            prose_chars == body_chars(all.take(i as int), false),
            removed_chapters == removed_lines(all.take(i as int)),
            counts_authors(shares@, all.take(i as int)),
            forall|k: int|
                0 <= k < i ==> (#[trigger] all[k]).body().len() <= usize::MAX && chapter_lines(
                    all[k].body_lines,
                ) <= usize::MAX,
        decreases n - i,
    {
        let ghost seen = all.take(i as int);
        let work: &Work = &works[i];
        let drama: bool = work.is_drama();
        let (removed, chars): (usize, usize) = work.render(&mut output);
        proof {
            assert(all[i as int] == work@);
            assert forall|k: int| 0 <= k < seen.len() implies (#[trigger] seen[k]).body().len()
                <= usize::MAX && chapter_lines(seen[k].body_lines) <= usize::MAX by {
                assert(seen[k] == all[k]);
            }
            lemma_sums_bounded(seen, usize::MAX as nat);
            assert(all.take(i + 1).drop_last() =~= seen);
            assert(all.take(i + 1) =~= seen.push(work@));
            assert(seen.len() * usize::MAX + usize::MAX <= u128::MAX) by (nonlinear_arith)
                requires
                    seen.len() < usize::MAX,
            ;
        }
        removed_chapters = removed_chapters + removed as u128;
        if drama {
            drama_count = drama_count + 1;
            drama_chars = drama_chars + chars as u128;
        } else {
            prose_chars = prose_chars + chars as u128;
        }
        add_share(&mut shares, work, chars, Ghost(seen));
        i += 1;
    }
    assert(all.take(i as int) =~= all);
    let authors: Vec<AuthorShare> = sort_shares(shares, Ghost(all));
    CleanCorpus { output, drama_count, drama_chars, prose_chars, removed_chapters, authors }
}

} // verus!
