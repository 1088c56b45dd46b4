//! Text as sequences of Unicode scalar values.

use vstd::prelude::*;

verus! {

/// `String::push` appends one character.
pub assume_specification[ String::push ](s: &mut String, c: char)
    ensures
        final(s)@ == old(s)@.push(c),
;

/// The contents of a list of strings.
pub open spec fn texts(v: Seq<String>) -> Seq<Seq<char>> {
    Seq::new(v.len(), |i: int| v[i]@)
}

/// The characters of `s`, in order.
pub fn chars_of(s: &str) -> (r: Vec<char>)
    ensures
        r@ == s@,
{
    let mut r: Vec<char> = Vec::new();
    for c in it: s.chars()
        invariant
            it.seq() == s@,
            r@ == s@.take(it.index() as int),
    {
        r.push(c);
    }
    r
}

/// The string made of `v[start..end]`.
pub fn string_of(v: &Vec<char>, start: usize, end: usize) -> (r: String)
    requires
        start <= end <= v@.len(),
    ensures
        r@ == v@.subrange(start as int, end as int),
{
    let mut r: String = String::new();
    let mut i: usize = start;
    while i < end
        invariant
            start <= i <= end <= v@.len(),
            r@ == v@.subrange(start as int, i as int),
        decreases end - i,
    {
        r.push(v[i]);
        i += 1;
        assert(v@.subrange(start as int, i as int) =~= v@.subrange(start as int, i - 1).push(v@[i - 1]));
    }
    r
}

/// The code point of a character.
pub open spec fn code(c: char) -> u32 {
    c as u32
}

/// Different characters have different code points.
pub proof fn lemma_code_injective(a: char, b: char)
    ensures
        code(a) == code(b) <==> a == b,
{
}

/// The code point of a character.
pub fn code_of(c: char) -> (r: u32)
    ensures
        r == code(c),
{
    c as u32
}

/// The code points with the Unicode property White_Space.
pub open spec fn white_space(c: char) -> bool {
    let u = c as u32;
    ||| 0x09 <= u <= 0x0d
    ||| u == 0x20
    ||| u == 0x85
    ||| u == 0xa0
    ||| u == 0x1680
    ||| 0x2000 <= u <= 0x200a
    ||| u == 0x2028
    ||| u == 0x2029
    ||| u == 0x202f
    ||| u == 0x205f
    ||| u == 0x3000
}

/// Tells whether `c` is white space.
pub fn is_white_space(c: char) -> (r: bool)
    ensures
        r == white_space(c),
{
    let u: u32 = c as u32;
    (0x09 <= u && u <= 0x0d) || u == 0x20 || u == 0x85 || u == 0xa0 || u == 0x1680 || (0x2000 <= u
        && u <= 0x200a) || u == 0x2028 || u == 0x2029 || u == 0x202f || u == 0x205f || u == 0x3000
}

/// The string that holds only `c`.
pub fn string_of_char(c: char) -> (r: String)
    ensures
        r@ == seq![c],
{
    let mut r: String = String::new();
    r.push(c);
    assert(r@ =~= seq![c]);
    r
}

/// The characters of `s`, each as a text of its own.
pub open spec fn singletons(s: Seq<char>) -> Seq<Seq<char>> {
    Seq::new(s.len(), |i: int| seq![s[i]])
}

/// Splits a text into its characters.
pub fn split_chars(s: &str) -> (r: Vec<String>)
    ensures
        texts(r@) == singletons(s@),
{
    let mut r: Vec<String> = Vec::new();
    for c in it: s.chars()
        invariant
            it.seq() == s@,
            r@.len() == it.index(),
            forall|i: int| 0 <= i < r@.len() ==> #[trigger] r@[i]@ == seq![s@[i]],
    {
        r.push(string_of_char(c));
    }
    assert(texts(r@) =~= singletons(s@));
    r
}

/// The position of the first `c` in `s`, or the length of `s`.
pub open spec fn find_char(s: Seq<char>, c: char) -> int
    decreases s.len(),
{
    if s.len() == 0 || s[0] == c {
        0
    } else {
        1 + find_char(s.skip(1), c)
    }
}

/// The position of the first `c` in `s` that is not before `start`, or at least
/// the length of `s`.
pub open spec fn find_char_from(s: Seq<char>, c: char, start: int) -> int {
    if start >= s.len() {
        start
    } else {
        start + find_char(s.skip(start), c)
    }
}

/// `find_char` finds the first position at which `c` stands.
pub proof fn lemma_find_char(s: Seq<char>, c: char)
    ensures
        0 <= find_char(s, c) <= s.len(),
        find_char(s, c) < s.len() ==> s[find_char(s, c)] == c,
        forall|i: int| 0 <= i < find_char(s, c) ==> s[i] != c,
    decreases s.len(),
{
    if s.len() > 0 && s[0] != c {
        let rest = s.skip(1);
        lemma_find_char(rest, c);
        assert forall|i: int| 0 <= i < find_char(s, c) implies s[i] != c by {
            if i > 0 {
                assert(s[i] == rest[i - 1]);
            }
        }
    }
}

/// Only the first position of `c` has no `c` before it.
pub proof fn lemma_find_char_unique(s: Seq<char>, c: char, n: int)
    requires
        0 <= n <= s.len(),
        n < s.len() ==> s[n] == c,
        forall|i: int| 0 <= i < n ==> s[i] != c,
    ensures
        find_char(s, c) == n,
{
    lemma_find_char(s, c);
}

/// The first position at or behind `start` at which `c` stands in `v`, or the
/// length of `v`.
pub fn position_of(v: &Vec<char>, c: char, start: usize) -> (r: usize)
    requires
        start <= v@.len(),
    ensures
        r == start + find_char(v@.skip(start as int), c),
        start <= r <= v@.len(),
{
    let mut i: usize = start;
    while i < v.len() && v[i] != c
        invariant
            start <= i <= v@.len(),
            forall|j: int| start <= j < i ==> v@[j] != c,
        decreases v@.len() - i,
    {
        i += 1;
    }
    proof {
        lemma_find_char_unique(v@.skip(start as int), c, i - start);
    }
    i
}

/// The parts, one behind the other.
pub open spec fn joined<A>(parts: Seq<Seq<A>>) -> Seq<A>
    decreases parts.len(),
{
    if parts.len() == 0 {
        Seq::empty()
    } else {
        joined(parts.drop_last()) + parts.last()
    }
}

/// Joining two lists of parts joins what each of them joins to.
pub proof fn lemma_joined_concat<A>(left: Seq<Seq<A>>, right: Seq<Seq<A>>)
    ensures
        joined(left + right) == joined(left) + joined(right),
    decreases right.len(),
{
    if right.len() == 0 {
        assert(left + right =~= left);
        assert(joined(left) + joined(right) =~= joined(left));
    } else {
        lemma_joined_concat(left, right.drop_last());
        assert((left + right).drop_last() =~= left + right.drop_last());
        assert(joined(left + right) =~= joined(left) + joined(right));
    }
}

/// One part alone joins to itself.
pub proof fn lemma_joined_one<A>(part: Seq<A>)
    ensures
        joined(seq![part]) == part,
{
    assert(seq![part].drop_last() =~= Seq::<Seq<A>>::empty());
    assert(joined(Seq::<Seq<A>>::empty()) =~= Seq::<A>::empty());
    assert(joined(seq![part]) =~= part);
}

/// Each part stands in the joined text.
pub proof fn lemma_part_of_joined<A>(parts: Seq<Seq<A>>, k: int) -> (at: int)
    requires
        0 <= k < parts.len(),
    ensures
        0 <= at,
        at + parts[k].len() <= joined(parts).len(),
        joined(parts).subrange(at, at + parts[k].len()) == parts[k],
{
    let left = parts.take(k);
    let right = parts.skip(k + 1);
    assert(parts =~= left + seq![parts[k]] + right);
    lemma_joined_concat(left + seq![parts[k]], right);
    lemma_joined_concat(left, seq![parts[k]]);
    lemma_joined_one(parts[k]);
    let at = joined(left).len() as int;
    assert(joined(parts).subrange(at, at + parts[k].len()) =~= parts[k]);
    at
}

/// The characters of a text join to the text.
pub proof fn lemma_joined_singletons(s: Seq<char>)
    ensures
        joined(singletons(s)) == s,
    decreases s.len(),
{
    if s.len() > 0 {
        let shorter = s.drop_last();
        lemma_joined_singletons(shorter);
        assert(singletons(s).drop_last() =~= singletons(shorter));
        assert(joined(singletons(s)) =~= s);
    } else {
        assert(joined(singletons(s)) =~= s);
    }
}

/// Sets of characters that are trimmed or split at.
#[derive(Clone, Copy, Debug, PartialEq, Eq, Structural)]
pub enum CharClass {
    /// Unicode white space.
    WhiteSpace,
    /// The punctuation of ASCII.
    AsciiPunctuation,
    /// Space, tab and the wide space of Japanese typesetting.
    Blank,
}

impl CharClass {
    pub open spec fn has(self, c: char) -> bool {
        match self {
            CharClass::WhiteSpace => white_space(c),
            CharClass::AsciiPunctuation => ascii_punctuation(c),
            CharClass::Blank => c == ' ' || c == '　' || c == '\t',
        }
    }

    /// Tells whether `c` is in the class.
    pub fn contains(self, c: char) -> (r: bool)
        ensures
            r == self.has(c),
    {
        match self {
            CharClass::WhiteSpace => is_white_space(c),
            CharClass::AsciiPunctuation => is_ascii_punctuation(c),
            CharClass::Blank => c == ' ' || c == '　' || c == '\t',
        }
    }
}

/// The ASCII characters that are neither controls, letters, digits nor the
/// space.
pub open spec fn ascii_punctuation(c: char) -> bool {
    let u = c as u32;
    ||| 0x21 <= u <= 0x2f
    ||| 0x3a <= u <= 0x40
    ||| 0x5b <= u <= 0x60
    ||| 0x7b <= u <= 0x7e
}

/// Tells whether `c` is ASCII punctuation.
pub fn is_ascii_punctuation(c: char) -> (r: bool)
    ensures
        r == ascii_punctuation(c),
{
    let u: u32 = c as u32;
    (0x21 <= u && u <= 0x2f) || (0x3a <= u && u <= 0x40) || (0x5b <= u && u <= 0x60) || (0x7b <= u
        && u <= 0x7e)
}

/// `s` without the characters of the class in front.
pub open spec fn trim_start(s: Seq<char>, class: CharClass) -> Seq<char>
    decreases s.len(),
{
    if s.len() > 0 && class.has(s[0]) {
        trim_start(s.skip(1), class)
    } else {
        s
    }
}

/// `s` without the characters of the class at the end.
pub open spec fn trim_end(s: Seq<char>, class: CharClass) -> Seq<char>
    decreases s.len(),
{
    if s.len() > 0 && class.has(s.last()) {
        trim_end(s.drop_last(), class)
    } else {
        s
    }
}

/// `s` without the characters of the class at both ends.
pub open spec fn trim(s: Seq<char>, class: CharClass) -> Seq<char> {
    trim_end(trim_start(s, class), class)
}

/// Where `v[start..end]` starts once the class is trimmed off its front.
pub fn trimmed_start(v: &Vec<char>, start: usize, end: usize, class: CharClass) -> (r: usize)
    requires
        start <= end <= v@.len(),
    ensures
        start <= r <= end,
        v@.subrange(r as int, end as int) == trim_start(
            v@.subrange(start as int, end as int),
            class,
        ),
{
    let mut i: usize = start;
    while i < end && class.contains(v[i])
        invariant
            start <= i <= end <= v@.len(),
            trim_start(v@.subrange(i as int, end as int), class) == trim_start(
                v@.subrange(start as int, end as int),
                class,
            ),
        decreases end - i,
    {
        assert(v@.subrange(i as int, end as int).skip(1) =~= v@.subrange(i + 1, end as int));
        i += 1;
    }
    i
}

/// Where `v[start..end]` ends once the class is trimmed off its end.
pub fn trimmed_end(v: &Vec<char>, start: usize, end: usize, class: CharClass) -> (r: usize)
    requires
        start <= end <= v@.len(),
    ensures
        start <= r <= end,
        v@.subrange(start as int, r as int) == trim_end(
            v@.subrange(start as int, end as int),
            class,
        ),
{
    let mut i: usize = end;
    while i > start && class.contains(v[i - 1])
        invariant
            start <= i <= end <= v@.len(),
            trim_end(v@.subrange(start as int, i as int), class) == trim_end(
                v@.subrange(start as int, end as int),
                class,
            ),
        decreases i,
    {
        assert(v@.subrange(start as int, i as int).drop_last() =~= v@.subrange(
            start as int,
            i - 1,
        ));
        i -= 1;
    }
    i
}

/// The text with the class trimmed off both ends.
pub fn trimmed(s: &str, class: CharClass) -> (r: String)
    ensures
        r@ == trim(s@, class),
{
    let v: Vec<char> = chars_of(s);
    let n: usize = v.len();
    let start: usize = trimmed_start(&v, 0, n, class);
    let end: usize = trimmed_end(&v, start, n, class);
    assert(v@.subrange(0, n as int) =~= s@);
    string_of(&v, start, end)
}

/// The number of characters before the first white space.
pub open spec fn word_length(s: Seq<char>) -> nat
    decreases s.len(),
{
    if s.len() == 0 || white_space(s[0]) {
        0
    } else {
        1 + word_length(s.skip(1))
    }
}

/// A word is part of the text.
pub proof fn lemma_word_length_bounded(s: Seq<char>)
    ensures
        word_length(s) <= s.len(),
    decreases s.len(),
{
    if s.len() > 0 {
        lemma_word_length_bounded(s.skip(1));
    }
}

/// The longest pieces of the text without white space.
pub open spec fn words(s: Seq<char>) -> Seq<Seq<char>>
    decreases s.len(),
{
    if s.len() == 0 {
        Seq::empty()
    } else if white_space(s[0]) {
        words(s.skip(1))
    } else {
        proof {
            lemma_word_length_bounded(s);
        }
        seq![s.take(word_length(s) as int)] + words(s.skip(word_length(s) as int))
    }
}

/// A word is as long as the characters up to the first white space.
proof fn lemma_word_length(s: Seq<char>, n: int)
    requires
        0 <= n <= s.len(),
        forall|i: int| 0 <= i < n ==> !white_space(#[trigger] s[i]),
        n < s.len() ==> white_space(s[n]),
    ensures
        word_length(s) == n,
    decreases n,
{
    if n > 0 {
        assert forall|i: int| 0 <= i < n - 1 implies !white_space(#[trigger] s.skip(1)[i]) by {
            assert(s.skip(1)[i] == s[i + 1]);
        }
        lemma_word_length(s.skip(1), n - 1);
    }
}

/// Splits a text at white space.
pub fn split_white_space(s: &str) -> (r: Vec<String>)
    ensures
        texts(r@) == words(s@),
{
    let v: Vec<char> = chars_of(s);
    let n: usize = v.len();
    let mut r: Vec<String> = Vec::new();
    let mut i: usize = 0;
    assert(v@.skip(0) =~= v@);
    assert(texts(r@) + words(v@.skip(0)) =~= words(v@));
    while i < n
        invariant
            i <= n == v@.len(),
            texts(r@) + words(v@.skip(i as int)) == words(v@),
        decreases n - i,
    {
        let ghost rest = v@.skip(i as int);
        let ghost before = r@;
        if is_white_space(v[i]) {
            assert(rest.skip(1) =~= v@.skip(i + 1));
            i += 1;
        } else {
            let mut j: usize = i + 1;
            while j < n && !is_white_space(v[j])
                invariant
                    i < j <= n == v@.len(),
                    forall|k: int| i <= k < j ==> !white_space(#[trigger] v@[k]),
                decreases n - j,
            {
                j += 1;
            }
            r.push(string_of(&v, i, j));
            proof {
                lemma_word_length(rest, j - i);
                assert(v@.subrange(i as int, j as int) =~= rest.take(j - i));
                assert(rest.skip(j - i) =~= v@.skip(j as int));
                assert(texts(r@) =~= texts(before) + seq![rest.take(j - i)]);
                assert(texts(r@) + words(v@.skip(j as int)) =~= texts(before) + words(rest));
            }
            i = j;
        }
    }
    assert(words(v@.skip(i as int)) =~= Seq::empty());
    assert(texts(r@) =~= words(v@));
    r
}

/// Tells whether `list` holds `s`.
pub fn contains_text(list: &Vec<String>, s: &String) -> (r: bool)
    ensures
        r == texts(list@).contains(s@),
{
    let mut i: usize = 0;
    while i < list.len()
        invariant
            i <= list@.len(),
            forall|j: int| 0 <= j < i ==> #[trigger] list@[j]@ != s@,
        decreases list@.len() - i,
    {
        if list[i].eq(s) {
            assert(texts(list@)[i as int] == s@);
            return true;
        }
        i += 1;
    }
    assert forall|j: int| 0 <= j < list@.len() implies texts(list@)[j] != s@ by {
        assert(list@[j]@ != s@);
    }
    false
}

/// A line without the carriage return that ends it.
pub open spec fn without_return(s: Seq<char>) -> Seq<char> {
    if s.len() > 0 && s.last() == '\r' {
        s.drop_last()
    } else {
        s
    }
}

/// The lines of a text. A line ends with a newline, before which a carriage
/// return does not count; the last line may end without.
pub open spec fn lines(s: Seq<char>) -> Seq<Seq<char>>
    decreases s.len(),
{
    if s.len() == 0 {
        Seq::empty()
    } else {
        let n = find_char(s, '\n');
        proof {
            lemma_find_char(s, '\n');
        }
        if n >= s.len() {
            seq![s]
        } else {
            seq![without_return(s.take(n))] + lines(s.skip(n + 1))
        }
    }
}

/// Splits a text into its lines.
pub fn split_lines(s: &str) -> (r: Vec<String>)
    ensures
        texts(r@) == lines(s@),
{
    let v: Vec<char> = chars_of(s);
    let n: usize = v.len();
    let mut r: Vec<String> = Vec::new();
    let mut i: usize = 0;
    assert(v@.skip(0) =~= v@);
    assert(texts(r@) + lines(v@.skip(0)) =~= lines(v@));
    while i < n
        invariant
            i <= n == v@.len(),
            texts(r@) + lines(v@.skip(i as int)) == lines(v@),
        decreases n - i,
    {
        let ghost rest = v@.skip(i as int);
        let ghost before = r@;
        let at: usize = position_of(&v, '\n', i);
        let mut end: usize = at;
        if at < n && at > i && v[at - 1] == '\r' {
            end = at - 1;
        }
        r.push(string_of(&v, i, end));
        let ghost line = if at < n {
            without_return(rest.take(at - i))
        } else {
            rest
        };
        proof {
            assert(v@.subrange(i as int, end as int) =~= line);
            assert(texts(r@) =~= texts(before) + seq![line]);
        }
        if at < n {
            proof {
                assert(rest.skip(at - i + 1) =~= v@.skip(at + 1));
                assert(texts(r@) + lines(v@.skip(at + 1)) =~= texts(before) + lines(rest));
            }
            i = at + 1;
        } else {
            proof {
                assert(v@.skip(n as int) =~= Seq::empty());
                assert(texts(r@) + lines(v@.skip(n as int)) =~= texts(before) + lines(rest));
            }
            i = n;
        }
    }
    assert(lines(v@.skip(i as int)) =~= Seq::empty());
    assert(texts(r@) =~= lines(v@));
    r
}

/// `s` starts with `p`.
pub open spec fn starts_with(s: Seq<char>, p: Seq<char>) -> bool {
    s.len() >= p.len() && s.take(p.len() as int) == p
}

/// `s` ends with `p`.
pub open spec fn ends_with(s: Seq<char>, p: Seq<char>) -> bool {
    s.len() >= p.len() && s.skip(s.len() - p.len()) == p
}

/// Tells whether `p` stands in `v` at `at`.
pub fn stands_at(v: &Vec<char>, at: usize, p: &Vec<char>) -> (r: bool)
    requires
        at <= v@.len(),
    ensures
        r == starts_with(v@.skip(at as int), p@),
{
    let n: usize = v.len();
    if n - at < p.len() {
        return false;
    }
    let ghost rest = v@.skip(at as int);
    let mut i: usize = 0;
    while i < p.len()
        invariant
            i <= p@.len(),
            at + p@.len() <= n == v@.len(),
            rest == v@.skip(at as int),
            forall|j: int| 0 <= j < i ==> rest[j] == p@[j],
        decreases p@.len() - i,
    {
        if v[at + i] != p[i] {
            assert(rest.take(p@.len() as int)[i as int] != p@[i as int]);
            return false;
        }
        i += 1;
    }
    assert(rest.take(p@.len() as int) =~= p@);
    true
}

/// Tells whether `s` starts with `p`.
pub fn has_prefix(s: &str, p: &str) -> (r: bool)
    ensures
        r == starts_with(s@, p@),
{
    let v: Vec<char> = chars_of(s);
    assert(v@.skip(0) =~= v@);
    stands_at(&v, 0, &chars_of(p))
}

/// `s` without the copies of `p` in front.
pub open spec fn strip_prefixes(s: Seq<char>, p: Seq<char>) -> Seq<char>
    decreases s.len(),
{
    if p.len() > 0 && starts_with(s, p) {
        strip_prefixes(s.skip(p.len() as int), p)
    } else {
        s
    }
}

/// `s` without the copies of `p` at the end.
pub open spec fn strip_suffixes(s: Seq<char>, p: Seq<char>) -> Seq<char>
    decreases s.len(),
{
    if p.len() > 0 && ends_with(s, p) {
        strip_suffixes(s.take(s.len() - p.len()), p)
    } else {
        s
    }
}

/// Takes copies of `p` off both ends of `s`, first in front.
pub fn stripped(s: &str, p: &str) -> (r: String)
    requires
        p@.len() > 0,
    ensures
        r@ == strip_suffixes(strip_prefixes(s@, p@), p@),
{
    let v: Vec<char> = chars_of(s);
    let mark: Vec<char> = chars_of(p);
    let n: usize = v.len();
    let k: usize = mark.len();
    let mut start: usize = 0;
    assert(v@.skip(0) =~= v@);
    while stands_at(&v, start, &mark)
        invariant
            start <= n == v@.len(),
            mark@ == p@,
            k == mark@.len() > 0,
            strip_prefixes(v@.skip(start as int), p@) == strip_prefixes(s@, p@),
        decreases n - start,
    {
        assert(v@.skip(start as int).skip(k as int) =~= v@.skip(start + k));
        start += k;
    }
    let ghost front = v@.skip(start as int);
    let mut end: usize = n;
    assert(v@.subrange(start as int, end as int) =~= front);
    while end - start >= k && stands_at(&v, end - k, &mark)
        invariant
            start <= end <= n == v@.len(),
            mark@ == p@,
            k == mark@.len() > 0,
            strip_suffixes(v@.subrange(start as int, end as int), p@) == strip_suffixes(front, p@),
        decreases end,
    {
        let ghost part = v@.subrange(start as int, end as int);
        assert(part.skip(part.len() - k) =~= v@.skip(end - k).take(k as int));
        assert(part.take(part.len() - k) =~= v@.subrange(start as int, end - k));
        end -= k;
    }
    proof {
        let part = v@.subrange(start as int, end as int);
        if end - start >= k {
            assert(part.skip(part.len() - k) =~= v@.skip(end - k).take(k as int));
        }
    }
    string_of(&v, start, end)
}

/// The text of a run of characters of `s` from the front.
pub fn first_chars(s: &str, n: usize) -> (r: String)
    ensures
        r@ == s@.take(if n <= s@.len() {
            n as int
        } else {
            s@.len() as int
        }),
{
    let v: Vec<char> = chars_of(s);
    let end: usize = if n <= v.len() {
        n
    } else {
        v.len()
    };
    assert(v@.subrange(0, end as int) =~= s@.take(end as int));
    string_of(&v, 0, end)
}

/// The characters of all lines, with a newline for each.
pub open spec fn line_total(lines: Seq<Seq<char>>) -> nat
    decreases lines.len(),
{
    if lines.len() == 0 {
        0
    } else {
        line_total(lines.drop_last()) + lines.last().len() + 1
    }
}

proof fn lemma_line_total_concat(left: Seq<Seq<char>>, right: Seq<Seq<char>>)
    ensures
        line_total(left + right) == line_total(left) + line_total(right),
    decreases right.len(),
{
    if right.len() == 0 {
        assert(left + right =~= left);
    } else {
        lemma_line_total_concat(left, right.drop_last());
        assert((left + right).drop_last() =~= left + right.drop_last());
    }
}

/// The lines of a text hold no more than the text and one newline.
pub proof fn lemma_lines_fit(s: Seq<char>)
    ensures
        line_total(lines(s)) <= s.len() + 1,
    decreases s.len(),
{
    if s.len() > 0 {
        let n = find_char(s, '\n');
        lemma_find_char(s, '\n');
        if n >= s.len() {
            assert(seq![s].drop_last() =~= Seq::<Seq<char>>::empty());
            assert(line_total(Seq::<Seq<char>>::empty()) == 0);
        } else {
            let line = without_return(s.take(n));
            let rest = lines(s.skip(n + 1));
            lemma_lines_fit(s.skip(n + 1));
            lemma_line_total_concat(seq![line], rest);
            assert(seq![line].drop_last() =~= Seq::<Seq<char>>::empty());
            assert(line_total(Seq::<Seq<char>>::empty()) == 0);
            if s.skip(n + 1).len() == 0 {
                assert(rest.len() == 0);
            }
        }
    }
}

/// The first lines hold no more than all lines.
pub proof fn lemma_line_total_prefix(lines: Seq<Seq<char>>, n: int)
    requires
        0 <= n <= lines.len(),
    ensures
        n <= line_total(lines.take(n)) <= line_total(lines),
    decreases lines.len(),
{
    let rest = lines.skip(n);
    assert(lines =~= lines.take(n) + rest);
    lemma_line_total_concat(lines.take(n), rest);
    lemma_line_total_at_least(lines.take(n));
}

proof fn lemma_line_total_at_least(lines: Seq<Seq<char>>)
    ensures
        lines.len() <= line_total(lines),
    decreases lines.len(),
{
    if lines.len() > 0 {
        lemma_line_total_at_least(lines.drop_last());
    }
}

/// The number of characters of a text.
pub fn char_count(s: &str) -> (r: usize)
    ensures
        r == s@.len(),
{
    chars_of(s).len()
}

/// The character of a decimal digit.
pub open spec fn digit(n: int) -> char {
    if n == 0 {
        '0'
    } else if n == 1 {
        '1'
    } else if n == 2 {
        '2'
    } else if n == 3 {
        '3'
    } else if n == 4 {
        '4'
    } else if n == 5 {
        '5'
    } else if n == 6 {
        '6'
    } else if n == 7 {
        '7'
    } else if n == 8 {
        '8'
    } else {
        '9'
    }
}

/// The character of a decimal digit.
pub fn digit_char(n: u8) -> (r: char)
    requires
        n < 10,
    ensures
        r == digit(n as int),
{
    match n {
        0 => '0',
        1 => '1',
        2 => '2',
        3 => '3',
        4 => '4',
        5 => '5',
        6 => '6',
        7 => '7',
        8 => '8',
        _ => '9',
    }
}

/// A number in decimal digits.
pub open spec fn decimal(n: nat) -> Seq<char>
    decreases n,
{
    if n < 10 {
        seq![digit(n as int)]
    } else {
        decimal(n / 10).push(digit(n as int % 10))
    }
}

/// A number in decimal digits.
pub fn decimal_of(n: u64) -> (r: String)
    ensures
        r@ == decimal(n as nat),
    decreases n,
{
    if n < 10 {
        string_of_char(digit_char(n as u8))
    } else {
        let mut r: String = decimal_of(n / 10);
        r.push(digit_char((n % 10) as u8));
        r
    }
}

/// A number in decimal digits holds no dot and is never empty.
pub proof fn lemma_decimal_digits(n: nat)
    ensures
        decimal(n).len() > 0,
        forall|i: int| 0 <= i < decimal(n).len() ==> #[trigger] decimal(n)[i] != '.',
    decreases n,
{
    if n >= 10 {
        lemma_decimal_digits(n / 10);
    }
}

/// Different numbers have different digits.
pub proof fn lemma_decimal_injective(a: nat, b: nat)
    requires
        decimal(a) == decimal(b),
    ensures
        a == b,
    decreases a,
{
    lemma_decimal_digits(a / 10);
    lemma_decimal_digits(b / 10);
    if a < 10 {
        if b < 10 {
            assert(decimal(a)[0] == digit(a as int) && decimal(b)[0] == digit(b as int));
        } else {
            assert(decimal(b).len() > 1);
        }
    } else {
        if b < 10 {
            assert(decimal(a).len() > 1);
        } else {
            assert(decimal(a).drop_last() =~= decimal(a / 10));
            assert(decimal(b).drop_last() =~= decimal(b / 10));
            lemma_decimal_injective(a / 10, b / 10);
            assert(decimal(a).last() == digit(a as int % 10));
            assert(decimal(b).last() == digit(b as int % 10));
        }
    }
}

/// `s` with zeros in front until it has `width` characters.
pub open spec fn zero_padded(s: Seq<char>, width: nat) -> Seq<char> {
    if s.len() >= width {
        s
    } else {
        Seq::new((width - s.len()) as nat, |i: int| '0') + s
    }
}

/// A number in decimal digits with zeros in front.
pub fn padded_decimal_of(n: u64, width: usize) -> (r: String)
    ensures
        r@ == zero_padded(decimal(n as nat), width as nat),
{
    let digits: String = decimal_of(n);
    let have: usize = char_count(digits.as_str());
    let mut r: String = String::new();
    let mut i: usize = have;
    assert(r@ =~= Seq::new(0, |i: int| '0'));
    while i < width
        invariant
            have <= i,
            i <= width || have == i,
            r@ == Seq::new((i - have) as nat, |i: int| '0'),
        decreases width - i,
    {
        r.push('0');
        i += 1;
        assert(r@ =~= Seq::new((i - have) as nat, |i: int| '0'));
    }
    r.append(digits.as_str());
    assert(r@ =~= zero_padded(decimal(n as nat), width as nat));
    r
}

/// The position of the first `p` in `s`, or the length of `s`.
pub open spec fn find_text(s: Seq<char>, p: Seq<char>) -> int
    decreases s.len(),
{
    if s.len() == 0 || starts_with(s, p) {
        0
    } else {
        1 + find_text(s.skip(1), p)
    }
}

/// What `find_text` finds is in the text.
pub proof fn lemma_find_text(s: Seq<char>, p: Seq<char>)
    ensures
        0 <= find_text(s, p) <= s.len(),
        find_text(s, p) < s.len() ==> starts_with(s.skip(find_text(s, p)), p),
    decreases s.len(),
{
    if s.len() > 0 && !starts_with(s, p) {
        lemma_find_text(s.skip(1), p);
        let n = find_text(s.skip(1), p);
        assert(s.skip(1).skip(n) =~= s.skip(n + 1));
    } else {
        assert(s.skip(0) =~= s);
    }
}

/// The pieces of `s` between the copies of `p`, taken from the left.
pub open spec fn pieces(s: Seq<char>, p: Seq<char>) -> Seq<Seq<char>>
    decreases s.len(),
{
    let n = find_text(s, p);
    proof {
        lemma_find_text(s, p);
    }
    if p.len() == 0 || n >= s.len() {
        seq![s]
    } else {
        seq![s.take(n)] + pieces(s.skip(n + p.len()), p)
    }
}

/// Splits `s` at every `p`.
pub fn split_at_text(s: &str, p: &str) -> (r: Vec<String>)
    requires
        p@.len() > 0,
    ensures
        texts(r@) == pieces(s@, p@),
{
    let v: Vec<char> = chars_of(s);
    let mark: Vec<char> = chars_of(p);
    let n: usize = v.len();
    let k: usize = mark.len();
    let mut r: Vec<String> = Vec::new();
    let mut start: usize = 0;
    assert(v@.skip(0) =~= v@);
    assert(texts(r@) + pieces(v@.skip(0), p@) =~= pieces(v@, p@));
    loop
        invariant_except_break
            texts(r@) + pieces(v@.skip(start as int), p@) == pieces(s@, p@),
        invariant
            start <= n == v@.len(),
            v@ == s@,
            mark@ == p@,
            k == mark@.len() > 0,
        ensures
            texts(r@) == pieces(s@, p@),
        decreases n - start,
    {
        let ghost rest = v@.skip(start as int);
        let ghost before = r@;
        let mut at: usize = start;
        while at < n && !stands_at(&v, at, &mark)
            invariant
                start <= at <= n == v@.len(),
                mark@ == p@,
                rest == v@.skip(start as int),
                find_text(rest, p@) == (at - start) + find_text(v@.skip(at as int), p@),
            decreases n - at,
        {
            assert(v@.skip(at as int).skip(1) =~= v@.skip(at + 1));
            at += 1;
        }
        r.push(string_of(&v, start, at));
        proof {
            assert(v@.subrange(start as int, at as int) =~= rest.take(at - start));
            assert(texts(r@) =~= texts(before) + seq![rest.take(at - start)]);
        }
        if at == n {
            proof {
                assert(v@.skip(n as int) =~= Seq::empty());
                assert(rest.take(n - start) =~= rest);
            }
            break ;
        }
        proof {
            assert(rest.skip(at - start + k) =~= v@.skip(at + k));
            assert(texts(r@) + pieces(v@.skip(at + k), p@) =~= texts(before) + pieces(rest, p@));
        }
        start = at + k;
    }
    r
}

/// The texts with `p` between each two.
pub open spec fn joined_with(list: Seq<Seq<char>>, p: Seq<char>) -> Seq<char>
    decreases list.len(),
{
    if list.len() == 0 {
        Seq::empty()
    } else if list.len() == 1 {
        list[0]
    } else {
        joined_with(list.drop_last(), p) + p + list.last()
    }
}

/// Joined texts start with the first of them.
pub proof fn lemma_joined_with_first(list: Seq<Seq<char>>, p: Seq<char>)
    requires
        list.len() >= 2,
    ensures
        joined_with(list, p) == list[0] + p + joined_with(list.skip(1), p),
    decreases list.len(),
{
    let rest = list.skip(1);
    let shorter = list.drop_last();
    if list.len() == 2 {
        assert(joined_with(shorter, p) == list[0]);
        assert(joined_with(rest, p) == list[1]);
    } else {
        lemma_joined_with_first(shorter, p);
        assert(shorter.skip(1) =~= rest.drop_last());
        assert(joined_with(list, p) =~= list[0] + p + joined_with(rest, p));
    }
}

/// The text holds no newline.
pub open spec fn unbroken(s: Seq<char>) -> bool {
    forall|i: int| 0 <= i < s.len() ==> s[i] != '\n'
}

/// Lines joined with newlines are the lines of the joined text, if none holds a
/// newline or ends with a carriage return and the last is not empty.
pub proof fn lemma_lines_of_joined(list: Seq<Seq<char>>)
    requires
        list.len() > 0 ==> list.last().len() > 0,
        forall|i: int|
            0 <= i < list.len() ==> unbroken(#[trigger] list[i]) && without_return(list[i])
                == list[i],
    ensures
        lines(joined_with(list, "\n"@)) == list,
    decreases list.len(),
{
    reveal_strlit("\n");
    let p = "\n"@;
    let s = joined_with(list, p);
    if list.len() == 0 {
        assert(lines(s) =~= list);
    } else if list.len() == 1 {
        assert(unbroken(list[0]));
        lemma_find_char_unique(s, '\n', s.len() as int);
        assert(lines(s) =~= list);
    } else {
        let rest = list.skip(1);
        let n = list[0].len() as int;
        lemma_joined_with_first(list, p);
        assert(unbroken(list[0]));
        assert forall|i: int| 0 <= i < n implies s[i] != '\n' by {
            assert(s[i] == list[0][i]);
        }
        assert(s[n] == '\n');
        lemma_find_char_unique(s, '\n', n);
        assert(s.take(n) =~= list[0]);
        assert(s.skip(n + 1) =~= joined_with(rest, p));
        assert forall|i: int| 0 <= i < rest.len() implies unbroken(#[trigger] rest[i])
            && without_return(rest[i]) == rest[i] by {
            assert(rest[i] == list[i + 1]);
        }
        assert(rest.last() == list.last());
        lemma_lines_of_joined(rest);
        assert(lines(s) =~= list);
    }
}

/// No line holds a newline.
pub proof fn lemma_lines_are_unbroken(s: Seq<char>)
    ensures
        forall|i: int| 0 <= i < lines(s).len() ==> unbroken(#[trigger] lines(s)[i]),
    decreases s.len(),
{
    if s.len() > 0 {
        let n = find_char(s, '\n');
        lemma_find_char(s, '\n');
        if n < s.len() {
            let rest = s.skip(n + 1);
            lemma_lines_are_unbroken(rest);
            assert forall|i: int| 0 <= i < lines(s).len() implies unbroken(
                #[trigger] lines(s)[i],
            ) by {
                if i > 0 {
                    assert(lines(s)[i] == lines(rest)[i - 1]);
                }
            }
        }
    }
}

/// What is trimmed at the end starts the text, and does not end with the class.
pub proof fn lemma_trim_end(s: Seq<char>, class: CharClass)
    ensures
        trim_end(s, class).is_prefix_of(s),
        trim_end(s, class).len() > 0 ==> !class.has(trim_end(s, class).last()),
    decreases s.len(),
{
    if s.len() > 0 && class.has(s.last()) {
        lemma_trim_end(s.drop_last(), class);
        let t = trim_end(s, class);
        assert(t =~= s.take(t.len() as int));
    }
}

/// A character of the class at the end is trimmed off.
proof fn lemma_trim_drop_last(s: Seq<char>, class: CharClass)
    requires
        s.len() > 0,
        class.has(s.last()),
    ensures
        trim(s.drop_last(), class) == trim(s, class),
    decreases s.len(),
{
    if class.has(s[0]) {
        let rest = s.skip(1);
        if rest.len() > 0 {
            lemma_trim_drop_last(rest, class);
            assert(s.drop_last().skip(1) =~= rest.drop_last());
        } else {
            assert(rest =~= s.drop_last());
        }
    }
}

/// Trimming the end first makes no difference.
pub proof fn lemma_trim_of_trim_end(s: Seq<char>, class: CharClass)
    ensures
        trim(trim_end(s, class), class) == trim(s, class),
    decreases s.len(),
{
    if s.len() > 0 && class.has(s.last()) {
        lemma_trim_of_trim_end(s.drop_last(), class);
        lemma_trim_drop_last(s, class);
    }
}

/// Joins texts with `p` between each two.
pub fn join_with(list: &Vec<String>, p: &str) -> (r: String)
    ensures
        r@ == joined_with(texts(list@), p@),
{
    let ghost all = texts(list@);
    let n: usize = list.len();
    if n == 0 {
        return String::new();
    }
    let mut r: String = list[0].clone();
    let mut i: usize = 1;
    assert(all.take(1) =~= seq![all[0]]);
    while i < n
        invariant
            1 <= i <= n == list@.len(),
            all == texts(list@),
            r@ == joined_with(all.take(i as int), p@),
        decreases n - i,
    {
        let ghost before = r@;
        r.append(p);
        r.append(list[i].as_str());
        i += 1;
        proof {
            assert(all.take(i as int).drop_last() =~= all.take(i - 1));
            assert(r@ =~= before + p@ + all[i - 1]);
        }
    }
    assert(all.take(i as int) =~= all);
    r
}

} // verus!
