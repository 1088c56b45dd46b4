//! What holds of cutting, trimming and joining texts.

use vstd::prelude::*;

use crate::text::{self, CharClass};

verus! {

/// White space is what Unicode calls so.
pub proof fn law_white_space_is_that_of_unicode(c: char)
    ensures
        CharClass::WhiteSpace.has(c) <==> {
            ||| c == '\t'
            ||| c == '\n'
            ||| c == '\u{b}'
            ||| c == '\u{c}'
            ||| c == '\r'
            ||| c == ' '
            ||| c == '\u{85}'
            ||| c == '\u{a0}'
            ||| c == '\u{1680}'
            ||| c == '\u{2000}'
            ||| c == '\u{2001}'
            ||| c == '\u{2002}'
            ||| c == '\u{2003}'
            ||| c == '\u{2004}'
            ||| c == '\u{2005}'
            ||| c == '\u{2006}'
            ||| c == '\u{2007}'
            ||| c == '\u{2008}'
            ||| c == '\u{2009}'
            ||| c == '\u{200a}'
            ||| c == '\u{2028}'
            ||| c == '\u{2029}'
            ||| c == '\u{202f}'
            ||| c == '\u{205f}'
            ||| c == '\u{3000}'
        },
        text::white_space(c) <==> CharClass::WhiteSpace.has(c),
{
}

/// ASCII punctuation is what can be printed in ASCII and is no letter, digit or
/// space.
pub proof fn law_ascii_punctuation_is_the_rest(c: char)
    ensures
        CharClass::AsciiPunctuation.has(c) <==> {
            &&& ' ' < c < '\u{7f}'
            &&& !('0' <= c <= '9')
            &&& !('A' <= c <= 'Z')
            &&& !('a' <= c <= 'z')
        },
{
}

/// Blanks are the space, the wide space and the tab.
pub proof fn law_blanks_are_three(c: char)
    ensures
        CharClass::Blank.has(c) <==> " \t　"@.contains(c),
{
    reveal_strlit(" \t　");
    let all = " \t　"@;
    assert(all[0] == ' ' && all[1] == '\t' && all[2] == '　');
    assert(all.len() == 3);
}

/// What trimming in front leaves: only characters of the class are gone, and none of
/// them is left in front.
pub proof fn law_trim_start_takes_the_class_off(s: Seq<char>, class: CharClass) -> (from: int)
    ensures
        0 <= from <= s.len(),
        text::trim_start(s, class) == s.skip(from),
        forall|k: int| 0 <= k < from ==> class.has(#[trigger] s[k]),
        from < s.len() ==> !class.has(s[from]),
    decreases s.len(),
{
    if s.len() > 0 && class.has(s[0]) {
        let rest = s.skip(1);
        let n = law_trim_start_takes_the_class_off(rest, class);
        assert(rest.skip(n) =~= s.skip(n + 1));
        assert forall|k: int| 0 <= k < n + 1 implies class.has(#[trigger] s[k]) by {
            if k > 0 {
                assert(s[k] == rest[k - 1]);
            }
        }
        if n < rest.len() {
            assert(rest[n] == s[n + 1]);
        }
        n + 1
    } else {
        assert(s.skip(0) =~= s);
        0
    }
}

/// What trimming at the end leaves: only characters of the class are gone, and none
/// of them is left at the end.
pub proof fn law_trim_end_takes_the_class_off(s: Seq<char>, class: CharClass) -> (to: int)
    ensures
        0 <= to <= s.len(),
        text::trim_end(s, class) == s.take(to),
        forall|k: int| to <= k < s.len() ==> class.has(#[trigger] s[k]),
        to > 0 ==> !class.has(s[to - 1]),
    decreases s.len(),
{
    if s.len() > 0 && class.has(s.last()) {
        let shorter = s.drop_last();
        let n = law_trim_end_takes_the_class_off(shorter, class);
        assert(shorter.take(n) =~= s.take(n));
        assert forall|k: int| n <= k < s.len() implies class.has(#[trigger] s[k]) by {
            if k < shorter.len() {
                assert(s[k] == shorter[k]);
            }
        }
        if n > 0 {
            assert(shorter[n - 1] == s[n - 1]);
        }
        n
    } else {
        assert(s.take(s.len() as int) =~= s);
        s.len() as int
    }
}

/// What trimming leaves: only characters of the class are gone, at both ends, and
/// none of them is left there.
pub proof fn law_trim_takes_the_class_off(s: Seq<char>, class: CharClass) -> (ends: (int, int))
    ensures
        0 <= ends.0 <= ends.1 <= s.len(),
        text::trim(s, class) == s.subrange(ends.0, ends.1),
        forall|k: int| 0 <= k < ends.0 || ends.1 <= k < s.len() ==> class.has(#[trigger] s[k]),
        ends.0 < ends.1 ==> !class.has(s[ends.0]) && !class.has(s[ends.1 - 1]),
{
    let from = law_trim_start_takes_the_class_off(s, class);
    let rest = s.skip(from);
    let n = law_trim_end_takes_the_class_off(rest, class);
    assert(rest.take(n) =~= s.subrange(from, from + n));
    assert forall|k: int| 0 <= k < from || from + n <= k < s.len() implies class.has(
        #[trigger] s[k],
    ) by {
        if k >= from {
            assert(s[k] == rest[k - from]);
        }
    }
    if n > 0 {
        assert(rest[n - 1] == s[from + n - 1]);
    }
    (from, from + n)
}

/// A text that neither starts nor ends with the class is left as it is.
pub proof fn law_trimmed_texts_stay(s: Seq<char>, class: CharClass)
    requires
        s.len() > 0 ==> !class.has(s[0]) && !class.has(s.last()),
    ensures
        text::trim(s, class) == s,
{
}

/// White space, and nothing else, stands between words: the words of two texts with
/// white space between them are those of the first and then those of the second.
pub proof fn law_white_space_parts_words(a: Seq<char>, c: char, b: Seq<char>)
    requires
        text::white_space(c),
    ensures
        text::words(a + seq![c] + b) == text::words(a) + text::words(b),
    decreases a.len(),
{
    let s = a + seq![c] + b;
    if a.len() == 0 {
        assert(s.skip(1) =~= b);
        assert(text::words(a) + text::words(b) =~= text::words(b));
    } else if text::white_space(a[0]) {
        assert(s.skip(1) =~= a.skip(1) + seq![c] + b);
        law_white_space_parts_words(a.skip(1), c, b);
    } else {
        let n = text::word_length(a) as int;
        text::lemma_word_length_bounded(a);
        lemma_word_ends(a);
        lemma_word_length_before(a, c, b);
        assert(s.take(n) =~= a.take(n));
        assert(s.skip(n) =~= a.skip(n) + seq![c] + b);
        law_white_space_parts_words(a.skip(n), c, b);
        assert(text::words(s) =~= text::words(a) + text::words(b));
    }
}

/// A word goes on up to white space.
proof fn lemma_word_ends(s: Seq<char>)
    ensures
        text::word_length(s) <= s.len(),
        forall|i: int| 0 <= i < text::word_length(s) ==> !text::white_space(#[trigger] s[i]),
        text::word_length(s) < s.len() ==> text::white_space(s[text::word_length(s) as int]),
    decreases s.len(),
{
    if s.len() > 0 && !text::white_space(s[0]) {
        let rest = s.skip(1);
        lemma_word_ends(rest);
        assert forall|i: int| 0 <= i < text::word_length(s) implies !text::white_space(
            #[trigger] s[i],
        ) by {
            if i > 0 {
                assert(s[i] == rest[i - 1]);
            }
        }
    }
}

/// What follows white space does not lengthen a word.
proof fn lemma_word_length_before(a: Seq<char>, c: char, b: Seq<char>)
    requires
        text::white_space(c),
    ensures
        text::word_length(a + seq![c] + b) == text::word_length(a),
    decreases a.len(),
{
    let s = a + seq![c] + b;
    if a.len() > 0 && !text::white_space(a[0]) {
        assert(s.skip(1) =~= a.skip(1) + seq![c] + b);
        lemma_word_length_before(a.skip(1), c, b);
    }
}

/// A text without white space is one word, unless it is empty.
pub proof fn law_one_word(s: Seq<char>)
    requires
        forall|i: int| 0 <= i < s.len() ==> !text::white_space(#[trigger] s[i]),
    ensures
        s.len() > 0 ==> text::words(s) == seq![s],
        s.len() == 0 ==> text::words(s).len() == 0,
{
    if s.len() > 0 {
        lemma_word_ends(s);
        let n = text::word_length(s) as int;
        assert(n == s.len());
        assert(s.take(n) =~= s);
        assert(text::words(s.skip(n)).len() == 0);
        assert(text::words(s) =~= seq![s]);
    }
}

/// A newline ends a line, which loses one carriage return at its end; the lines
/// behind it are those of the rest.
pub proof fn law_a_newline_ends_a_line(a: Seq<char>, b: Seq<char>)
    requires
        !a.contains('\n'),
    ensures
        text::lines(a + seq!['\n'] + b) == seq![
            if a.len() > 0 && a.last() == '\r' {
                a.drop_last()
            } else {
                a
            },
        ] + text::lines(b),
{
    let s = a + seq!['\n'] + b;
    let n = a.len() as int;
    assert forall|i: int| 0 <= i < n implies s[i] != '\n' by {
        assert(a.contains(a[i]));
    }
    assert(s[n] == '\n');
    text::lemma_find_char_unique(s, '\n', n);
    assert(s.take(n) =~= a);
    assert(s.skip(n + 1) =~= b);
}

/// Without a newline a text is one line, carriage returns and all, unless it is
/// empty.
pub proof fn law_one_line(s: Seq<char>)
    requires
        !s.contains('\n'),
    ensures
        s.len() > 0 ==> text::lines(s) == seq![s],
        s.len() == 0 ==> text::lines(s).len() == 0,
{
    assert forall|i: int| 0 <= i < s.len() implies s[i] != '\n' by {
        assert(s.contains(s[i]));
    }
    text::lemma_find_char_unique(s, '\n', s.len() as int);
}

/// A text starts with another if and only if something can be put behind that to
/// give it.
pub proof fn law_starting_with_a_text(s: Seq<char>, p: Seq<char>)
    ensures
        text::starts_with(s, p) <==> exists|rest: Seq<char>| s == #[trigger] (p + rest),
{
    if text::starts_with(s, p) {
        assert(s =~= p + s.skip(p.len() as int));
    }
    if exists|rest: Seq<char>| s == #[trigger] (p + rest) {
        let rest = choose|rest: Seq<char>| s == #[trigger] (p + rest);
        assert(s.take(p.len() as int) =~= p);
    }
}

/// Copies in front are taken off, and nothing else.
pub proof fn law_stripping_in_front(s: Seq<char>, p: Seq<char>)
    requires
        p.len() > 0,
    ensures
        text::strip_prefixes(p + s, p) == text::strip_prefixes(s, p),
        (forall|rest: Seq<char>| s != #[trigger] (p + rest)) ==> text::strip_prefixes(s, p) == s,
{
    assert((p + s).take(p.len() as int) =~= p);
    assert((p + s).skip(p.len() as int) =~= s);
    law_starting_with_a_text(s, p);
}

/// Copies at the end are taken off, and nothing else.
pub proof fn law_stripping_at_the_end(s: Seq<char>, p: Seq<char>)
    requires
        p.len() > 0,
    ensures
        text::strip_suffixes(s + p, p) == text::strip_suffixes(s, p),
        (forall|rest: Seq<char>| s != #[trigger] (rest + p)) ==> text::strip_suffixes(s, p) == s,
{
    let longer = s + p;
    assert(longer.skip(longer.len() - p.len()) =~= p);
    assert(longer.take(longer.len() - p.len()) =~= s);
    if text::ends_with(s, p) {
        assert(s =~= s.take(s.len() - p.len()) + p);
    }
}

/// Ten times a number and a digit is written as the number and the digit; digits
/// follow each other as characters do. So a number is what its digits say.
pub proof fn law_digits_say_the_number(n: nat, d: nat)
    requires
        d < 10,
    ensures
        n > 0 ==> text::decimal((10 * n + d) as nat).len() == text::decimal(n).len() + 1,
        n > 0 ==> text::decimal((10 * n + d) as nat).drop_last() == text::decimal(n),
        text::decimal((10 * n + d) as nat).last() as u32 == '0' as u32 + d,
        n == 0 ==> text::decimal(d).len() == 1,
{
    let m = (10 * n + d) as nat;
    assert(m / 10 == n && m as int % 10 == d);
    if n > 0 {
        assert(text::decimal(m) == text::decimal(n).push(text::digit(d as int)));
        assert(text::decimal(m).drop_last() =~= text::decimal(n));
    }
}

/// Zeros in front, and only as many as are missing.
pub proof fn law_padding_adds_zeros(s: Seq<char>, width: nat)
    ensures
        text::zero_padded(s, width).len() == vstd::math::max(s.len() as int, width as int),
        text::zero_padded(s, width).skip(text::zero_padded(s, width).len() - s.len()) == s,
        forall|i: int|
            0 <= i < text::zero_padded(s, width).len() - s.len() ==> #[trigger] text::zero_padded(
                s,
                width,
            )[i] == '0',
{
    assert(text::zero_padded(s, width).skip(text::zero_padded(s, width).len() - s.len()) =~= s);
}

/// `p` stands in `s` at `i`.
pub open spec fn stands_in(s: Seq<char>, p: Seq<char>, i: int) -> bool {
    0 <= i <= s.len() - p.len() && s.subrange(i, i + p.len()) == p
}

/// The first place at which a text is found.
proof fn lemma_first_place(s: Seq<char>, p: Seq<char>, n: int)
    requires
        p.len() > 0,
        0 <= n <= s.len(),
        n < s.len() ==> stands_in(s, p, n),
        forall|i: int| 0 <= i < n ==> !#[trigger] stands_in(s, p, i),
    ensures
        text::find_text(s, p) == n,
    decreases s.len(),
{
    if s.len() > 0 {
        if p.len() <= s.len() {
            assert(s.take(p.len() as int) =~= s.subrange(0, p.len() as int));
        }
        assert(text::starts_with(s, p) <==> stands_in(s, p, 0));
        if n > 0 {
            assert(!stands_in(s, p, 0));
            let rest = s.skip(1);
            assert forall|i: int| 0 <= i <= rest.len() implies stands_in(rest, p, i) == stands_in(
                s,
                p,
                i + 1,
            ) by {
                if i + p.len() <= rest.len() {
                    assert(rest.subrange(i, i + p.len()) =~= s.subrange(i + 1, i + 1 + p.len()));
                }
            }
            assert forall|i: int| 0 <= i < n - 1 implies !#[trigger] stands_in(rest, p, i) by {
                assert(!stands_in(s, p, i + 1));
            }
            lemma_first_place(rest, p, n - 1);
        }
    }
}

/// A text is split at the first place of the separator, and then the rest is split;
/// where the separator does not stand the text is one piece.
pub proof fn law_pieces_end_at_separators(s: Seq<char>, p: Seq<char>, n: int)
    requires
        p.len() > 0,
        forall|i: int| 0 <= i < n ==> !#[trigger] stands_in(s, p, i),
    ensures
        stands_in(s, p, n) ==> text::pieces(s, p) == seq![s.take(n)] + text::pieces(
            s.skip(n + p.len()),
            p,
        ),
        n >= s.len() ==> text::pieces(s, p) == seq![s],
{
    if stands_in(s, p, n) {
        lemma_first_place(s, p, n);
    } else if n >= s.len() {
        lemma_first_place(s, p, s.len() as int);
    }
}

/// The pieces with the separator between each two are the text again.
pub proof fn law_pieces_make_the_text(s: Seq<char>, p: Seq<char>)
    ensures
        text::pieces(s, p).len() > 0,
        text::joined_with(text::pieces(s, p), p) == s,
    decreases s.len(),
{
    let n = text::find_text(s, p);
    text::lemma_find_text(s, p);
    if p.len() > 0 && n < s.len() {
        let rest = s.skip(n + p.len());
        let all = text::pieces(s, p);
        law_pieces_make_the_text(rest, p);
        assert(all.skip(1) =~= text::pieces(rest, p));
        text::lemma_joined_with_first(all, p);
        assert(s.skip(n).take(p.len() as int) == p);
        assert(s =~= s.take(n) + s.skip(n).take(p.len() as int) + rest);
    }
}

/// Texts joined are the texts one behind the other.
pub proof fn law_joined_is_flat<A>(parts: Seq<Seq<A>>)
    ensures
        text::joined(parts) == parts.flatten(),
    decreases parts.len(),
{
    if parts.len() > 0 {
        law_joined_is_flat(parts.drop_last());
        parts.drop_last().lemma_flatten_push(parts.last());
        assert(parts.drop_last().push(parts.last()) =~= parts);
    } else {
        assert(text::joined(parts) =~= parts.flatten());
    }
}

/// Texts joined with a separator: the first, and then each other with the separator
/// in front of it.
pub proof fn law_joined_with_puts_separators_between(list: Seq<Seq<char>>, p: Seq<char>)
    ensures
        list.len() == 0 ==> text::joined_with(list, p).len() == 0,
        list.len() > 0 ==> text::joined_with(list, p) == list[0] + list.skip(1).map_values(
            |t: Seq<char>| p + t,
        ).flatten(),
    decreases list.len(),
{
    if list.len() == 1 {
        assert(list.skip(1).map_values(|t: Seq<char>| p + t).flatten() =~= Seq::empty());
        assert(list[0] + Seq::<char>::empty() =~= list[0]);
    } else if list.len() > 1 {
        let shorter = list.drop_last();
        law_joined_with_puts_separators_between(shorter, p);
        let front = shorter.skip(1).map_values(|t: Seq<char>| p + t);
        let all = list.skip(1).map_values(|t: Seq<char>| p + t);
        assert(all =~= front.push(p + list.last()));
        front.lemma_flatten_push(p + list.last());
        assert(text::joined_with(list, p) =~= list[0] + all.flatten());
    }
}

/// A text is cut into as many symbols as it has characters, one character each.
pub proof fn law_singletons_are_characters(s: Seq<char>)
    ensures
        text::singletons(s).len() == s.len(),
        text::singletons(s).flatten() == s,
        forall|i: int|
            0 <= i < s.len() ==> (#[trigger] text::singletons(s)[i]).len() == 1,
{
    text::lemma_joined_singletons(s);
    law_joined_is_flat(text::singletons(s));
}

} // verus!
