//! How texts are put between marks, and how ids become text again.

use vstd::prelude::*;

use crate::bpe_tokenizer::{self, BpeModel, BpeTokenizer};
use crate::char_bpe_tokenizer::{CharBpeModel, CharBpeTokenizer};
use crate::char_tokenizer::{CharModel, CharTokenizer};
use crate::merges;
use crate::pair_table::Pair;
use crate::text;
use crate::tokenizer::{AnyTokenizer, Tokenizer, TokenizerKind};

verus! {

/// The vocabulary of a byte-level tokenizer starts with four markers. Then comes every
/// byte, by its number: `b` and three digits that say the byte, and the same with the
/// mark of the end of a word.
pub proof fn law_byte_vocabularies_start_with_bytes(b: u8)
    ensures
        ({
            let tokens = bpe_tokenizer::initial_tokens();
            let plain = tokens[4 + 2 * b];
            &&& tokens.len() == 4 + 2 * 256
            &&& tokens[0] == "<PAD>"@ && tokens[1] == "<UNK>"@ && tokens[2] == "<BOS>"@ && tokens[3]
                == "<EOS>"@
            &&& plain.len() == 4 && plain[0] == 'b'
            &&& 100 * (plain[1] as int - '0' as int) + 10 * (plain[2] as int - '0' as int) + (
            plain[3] as int - '0' as int) == b
            &&& tokens[5 + 2 * b] == plain + "</w>"@
        }),
{
    let tokens = bpe_tokenizer::initial_tokens();
    let plain = bpe_tokenizer::byte_text(b);
    let n = b as int;
    assert((2 * n) % 2 == 0 && (2 * n) / 2 == n);
    assert((2 * n + 1) % 2 == 1 && (2 * n + 1) / 2 == n);
    assert(tokens[4 + 2 * n] == plain);
    assert(tokens[5 + 2 * n] == plain + bpe_tokenizer::word_end());
    lemma_digit_says(n / 100);
    lemma_digit_says((n / 10) % 10);
    lemma_digit_says(n % 10);
    assert(100 * (n / 100) + 10 * ((n / 10) % 10) + n % 10 == n);
}

proof fn lemma_digit_says(n: int)
    requires
        0 <= n < 10,
    ensures
        text::digit(n) as int - '0' as int == n,
{
}

/// What three digits behind a `b` say is a byte, and what follows is read on; a plus sign
/// may stand for the first digit. A number above that of any byte ends the reading, and so
/// does anything else.
pub proof fn law_bytes_are_read_from_digits(t: Seq<char>)
    ensures
        t.len() < 4 || t[0] != 'b' ==> bpe_tokenizer::token_bytes(t).len() == 0,
        t.len() >= 4 && t[0] == 'b' && is_digit(t[1]) && is_digit(t[2]) && is_digit(t[3]) ==> ({
            let n = 100 * (t[1] as int - '0' as int) + 10 * (t[2] as int - '0' as int) + (
            t[3] as int - '0' as int);
            bpe_tokenizer::token_bytes(t) == if n <= 255 {
                Seq::<u8>::empty().push(n as u8) + bpe_tokenizer::token_bytes(t.skip(4))
            } else {
                Seq::<u8>::empty()
            }
        }),
        t.len() >= 4 && t[0] == 'b' && t[1] == '+' && is_digit(t[2]) && is_digit(t[3]) ==> ({
            let n = 10 * (t[2] as int - '0' as int) + (t[3] as int - '0' as int);
            bpe_tokenizer::token_bytes(t) == Seq::<u8>::empty().push(n as u8)
                + bpe_tokenizer::token_bytes(t.skip(4))
        }),
        t.len() >= 4 && t[0] == 'b' && !((is_digit(t[1]) || t[1] == '+') && is_digit(t[2])
            && is_digit(t[3])) ==> bpe_tokenizer::token_bytes(t).len() == 0,
{
    if t.len() >= 4 {
        lemma_value_of_digit(t[1]);
        lemma_value_of_digit(t[2]);
        lemma_value_of_digit(t[3]);
    }
}

/// A decimal digit.
pub open spec fn is_digit(c: char) -> bool {
    '0' <= c <= '9'
}

proof fn lemma_value_of_digit(c: char)
    ensures
        is_digit(c) <==> bpe_tokenizer::digit_value(c) is Some,
        is_digit(c) ==> bpe_tokenizer::digit_value(c) == Some(c as int - '0' as int),
{
}

/// The token is decoded, and no word ends with it.
pub open spec fn goes_on(m: BpeModel, id: usize) -> bool {
    &&& id < m.tokens.len()
    &&& m.tokens[id as int] != "<PAD>"@
    &&& m.tokens[id as int] != "<UNK>"@
    &&& m.tokens[id as int] != "<BOS>"@
    &&& m.tokens[id as int] != "<EOS>"@
    &&& !"</w>"@.is_suffix_of(m.tokens[id as int])
}

/// Tokens within a word are decoded together: their bytes, one behind the other, are
/// the text, though no end of a word was seen.
pub proof fn law_bytes_within_a_word_are_joined(m: BpeModel, ids: Seq<usize>)
    requires
        forall|i: int| 0 <= i < ids.len() ==> goes_on(m, #[trigger] ids[i]),
    ensures
        ({
            let bytes = ids.map_values(
                |id: usize| bpe_tokenizer::token_bytes(m.tokens[id as int]),
            ).flatten();
            &&& bytes.len() == 0 ==> m.decode(ids).len() == 0
            &&& bytes.len() > 0 && vstd::utf8::valid_utf8(bytes) ==> vstd::utf8::encode_utf8(
                m.decode(ids),
            ) == bytes
        }),
{
    let bytes = ids.map_values(
        |id: usize| bpe_tokenizer::token_bytes(m.tokens[id as int]),
    ).flatten();
    lemma_within_a_word(m, ids);
    reveal_with_fuel(text::joined_with, 2);
    if bytes.len() > 0 && vstd::utf8::valid_utf8(bytes) {
        vstd::utf8::decode_utf8_encode_utf8(bytes);
    }
}

/// Bytes are gathered until a word ends.
proof fn lemma_within_a_word(m: BpeModel, ids: Seq<usize>)
    requires
        forall|i: int| 0 <= i < ids.len() ==> goes_on(m, #[trigger] ids[i]),
    ensures
        m.decode_all(ids).words.len() == 0,
        m.decode_all(ids).current == ids.map_values(
            |id: usize| bpe_tokenizer::token_bytes(m.tokens[id as int]),
        ).flatten(),
    decreases ids.len(),
{
    let f = |id: usize| bpe_tokenizer::token_bytes(m.tokens[id as int]);
    let all = ids.map_values(f);
    if ids.len() == 0 {
        assert(m.decode_all(ids).current =~= all.flatten());
    } else {
        let shorter = ids.drop_last();
        assert forall|i: int| 0 <= i < shorter.len() implies goes_on(m, #[trigger] shorter[i]) by {
            assert(goes_on(m, ids[i]));
        }
        lemma_within_a_word(m, shorter);
        assert(goes_on(m, ids[ids.len() - 1]));
        let token = m.tokens[ids.last() as int];
        lemma_suffix(token);
        assert(all =~= shorter.map_values(f).push(f(ids.last())));
        shorter.map_values(f).lemma_flatten_push(f(ids.last()));
    }
}

/// A token ends a word if it ends with the mark for it.
proof fn lemma_suffix(t: Seq<char>)
    ensures
        bpe_tokenizer::ends_word(t) <==> "</w>"@.is_suffix_of(t),
{
    reveal_strlit("</w>");
    assert("</w>"@.len() == 4);
    if t.len() >= 4 {
        assert(t.skip(t.len() - 4) =~= t.subrange(t.len() - 4, t.len() as int));
    }
}

/// The marks of the end of a word are taken off, however often they stand there.
pub proof fn law_end_marks_are_taken_off(t: Seq<char>)
    ensures
        bpe_tokenizer::body(t + "</w>"@) == bpe_tokenizer::body(t),
        !"</w>"@.is_suffix_of(t) ==> bpe_tokenizer::body(t) == t,
{
    reveal_strlit("</w>");
    let longer = t + "</w>"@;
    assert(longer.take(longer.len() - 4) =~= t);
    assert(longer.skip(longer.len() - 4) =~= "</w>"@);
    lemma_suffix(t);
}

/// A word is the text of its bytes: those of the tokens within it and of the token that
/// ends it.
pub proof fn law_a_word_is_the_text_of_its_bytes(m: BpeModel, ids: Seq<usize>, e: usize)
    requires
        forall|i: int| 0 <= i < ids.len() ==> goes_on(m, #[trigger] ids[i]),
        e < m.tokens.len(),
        "</w>"@.is_suffix_of(m.tokens[e as int]),
    ensures
        ({
            let bytes = ids.map_values(
                |id: usize| bpe_tokenizer::token_bytes(m.tokens[id as int]),
            ).flatten() + bpe_tokenizer::token_bytes(bpe_tokenizer::body(m.tokens[e as int]));
            vstd::utf8::valid_utf8(bytes) ==> vstd::utf8::encode_utf8(m.decode(ids.push(e)))
                == bytes
        }),
{
    let bytes = ids.map_values(
        |id: usize| bpe_tokenizer::token_bytes(m.tokens[id as int]),
    ).flatten() + bpe_tokenizer::token_bytes(bpe_tokenizer::body(m.tokens[e as int]));
    lemma_within_a_word(m, ids);
    lemma_end_is_decoded(m, e);
    assert(ids.push(e).drop_last() =~= ids);
    let d = m.decode_all(ids.push(e));
    assert(d.current.len() == 0);
    assert(d.words =~= seq![bpe_tokenizer::utf8_lossy(bytes)]);
    reveal_with_fuel(text::joined_with, 2);
    if vstd::utf8::valid_utf8(bytes) {
        vstd::utf8::decode_utf8_encode_utf8(bytes);
    }
}

/// A token that ends a word is no reserved marker.
proof fn lemma_end_is_decoded(m: BpeModel, e: usize)
    requires
        e < m.tokens.len(),
        "</w>"@.is_suffix_of(m.tokens[e as int]),
    ensures
        bpe_tokenizer::ends_word(m.tokens[e as int]),
        !bpe_tokenizer::is_reserved(m.tokens[e as int]),
{
    let token = m.tokens[e as int];
    lemma_suffix(token);
    reveal_strlit("</w>");
    reveal_strlit("<PAD>");
    reveal_strlit("<UNK>");
    reveal_strlit("<BOS>");
    reveal_strlit("<EOS>");
    assert(token.skip(token.len() - 4) == "</w>"@);
    assert(token[token.len() - 2] == "</w>"@[2]);
}

/// Behind a token that ends a word a new word starts, with a space in front of it.
pub proof fn law_an_end_of_word_parts_words(m: BpeModel, a: Seq<usize>, e: usize, b: Seq<usize>)
    requires
        e < m.tokens.len(),
        "</w>"@.is_suffix_of(m.tokens[e as int]),
        m.decode(b).len() > 0,
    ensures
        m.decode(a.push(e) + b) == m.decode(a.push(e)) + " "@ + m.decode(b),
{
    let front = a.push(e);
    lemma_end_is_decoded(m, e);
    assert(front.drop_last() =~= a);
    assert(m.decode_all(front).current.len() == 0);
    lemma_decode_on(m, front, b);
    let x = m.decode_all(front).words;
    let d = m.decode_all(b);
    let y = if d.current.len() == 0 {
        d.words
    } else {
        d.words.push(bpe_tokenizer::utf8_lossy(d.current))
    };
    assert(m.decode_all(front + b).current =~= d.current);
    assert((if d.current.len() == 0 {
        m.decode_all(front + b).words
    } else {
        m.decode_all(front + b).words.push(bpe_tokenizer::utf8_lossy(d.current))
    }) =~= x + y);
    assert(x.len() > 0);
    assert(y.len() > 0);
    lemma_joined_halves(x, y, " "@);
}

/// After the end of a word decoding goes on as from the start.
proof fn lemma_decode_on(m: BpeModel, a: Seq<usize>, b: Seq<usize>)
    requires
        m.decode_all(a).current.len() == 0,
    ensures
        m.decode_all(a + b).words == m.decode_all(a).words + m.decode_all(b).words,
        m.decode_all(a + b).current == m.decode_all(b).current,
    decreases b.len(),
{
    if b.len() == 0 {
        assert(a + b =~= a);
        assert(m.decode_all(a).words + m.decode_all(b).words =~= m.decode_all(a).words);
        assert(m.decode_all(a).current =~= m.decode_all(b).current);
    } else {
        lemma_decode_on(m, a, b.drop_last());
        assert((a + b).drop_last() =~= a + b.drop_last());
        assert(m.decode_all(a + b).words =~= m.decode_all(a).words + m.decode_all(b).words);
    }
}

/// Two lists of texts joined together.
proof fn lemma_joined_halves(x: Seq<Seq<char>>, y: Seq<Seq<char>>, p: Seq<char>)
    requires
        x.len() > 0,
        y.len() > 0,
    ensures
        text::joined_with(x + y, p) == text::joined_with(x, p) + p + text::joined_with(y, p),
    decreases y.len(),
{
    assert((x + y).drop_last() =~= x + y.drop_last());
    assert((x + y).last() == y.last());
    if y.len() == 1 {
        assert(x + y.drop_last() =~= x);
        assert(text::joined_with(y, p) == y[0]);
    } else {
        lemma_joined_halves(x, y.drop_last(), p);
        assert(text::joined_with(x + y, p) =~= text::joined_with(x, p) + p + text::joined_with(
            y,
            p,
        ));
    }
}

/// A text for training is what the text is encoded to, between the marks of a beginning
/// and an end. A mark that the text brings along is not put there again.
pub proof fn law_training_texts_stand_between_marks(m: CharBpeModel, s: Seq<char>)
    requires
        m.bos_id() != m.eos_id(),
    ensures
        ({
            let inner = m.encode_inner(s);
            let opened = inner.len() > 0 && inner[0] == m.bos_id();
            let closed = inner.len() > 0 && inner[inner.len() - 1] == m.eos_id();
            let front = if opened {
                Seq::<usize>::empty()
            } else {
                Seq::<usize>::empty().push(m.bos_id())
            };
            let back = if closed {
                Seq::<usize>::empty()
            } else {
                Seq::<usize>::empty().push(m.eos_id())
            };
            m.encode_long(s) == front + inner + back
        }),
{
    let inner = m.encode_inner(s);
    let opened = inner.len() > 0 && inner[0] == m.bos_id();
    let closed = inner.len() > 0 && inner[inner.len() - 1] == m.eos_id();
    let front = if opened {
        Seq::<usize>::empty()
    } else {
        Seq::<usize>::empty().push(m.bos_id())
    };
    let back = if closed {
        Seq::<usize>::empty()
    } else {
        Seq::<usize>::empty().push(m.eos_id())
    };
    assert(m.encode_long(s) =~= front + inner + back);
}

/// New merges go behind those that were there, in the order in which they were learned,
/// and none that was there is repeated.
pub proof fn law_new_merges_go_behind(list: Seq<Pair>, run: Seq<Pair>)
    ensures
        merges::appended(list, run) == list + run.filter(|p: Pair| !list.contains(p)),
    decreases run.len(),
{
    reveal(Seq::filter);
    let new = |p: Pair| !list.contains(p);
    if run.len() > 0 {
        law_new_merges_go_behind(list, run.drop_last());
        assert(merges::appended(list, run) =~= list + run.filter(new));
    } else {
        assert(list =~= list + run.filter(new));
    }
}

/// What a tokenizer does in place of any of them, it does as the one that it is.
pub proof fn law_any_tokenizer_is_one_of_three(
    b: BpeTokenizer,
    c: CharTokenizer,
    s: CharBpeTokenizer,
    t: Seq<char>,
    ids: Seq<usize>,
)
    ensures
        AnyTokenizer::Bpe(b).long_ids(t) == b@.encode(t),
        AnyTokenizer::Bpe(b).prompt_ids(t) == b@.encode_prompt(t),
        AnyTokenizer::Bpe(b).decoded(ids) == b@.decode(ids),
        AnyTokenizer::Bpe(b).size() == b@.tokens.len(),
        AnyTokenizer::Bpe(b).pad() == b@.pad_id(),
        AnyTokenizer::Bpe(b).eos() == b@.eos_id(),
        AnyTokenizer::Bpe(b).kind_of() == TokenizerKind::Bpe,
        AnyTokenizer::Char(c).long_ids(t) == c@.encode(t),
        AnyTokenizer::Char(c).prompt_ids(t) == c@.encode(t),
        AnyTokenizer::Char(c).decoded(ids) == c@.decode(ids),
        AnyTokenizer::Char(c).size() == c@.chars.len(),
        AnyTokenizer::Char(c).pad() == 0,
        AnyTokenizer::Char(c).eos() == usize::MAX,
        AnyTokenizer::Char(c).kind_of() == TokenizerKind::Char,
        AnyTokenizer::CharBpe(s).long_ids(t) == s@.encode_long(t),
        AnyTokenizer::CharBpe(s).prompt_ids(t) == s@.encode_prompt(t),
        AnyTokenizer::CharBpe(s).decoded(ids) == s@.decode(ids),
        AnyTokenizer::CharBpe(s).size() == s@.tokens.len(),
        AnyTokenizer::CharBpe(s).pad() == s@.pad_id(),
        AnyTokenizer::CharBpe(s).eos() == s@.eos_id(),
        AnyTokenizer::CharBpe(s).kind_of() == TokenizerKind::CharBpe,
{
}

/// The ids of the markers are the places where the vocabulary has them, and 0, 2 and 3
/// where it has none.
pub proof fn law_marks_have_their_ids(b: BpeModel, c: CharBpeModel)
    requires
        b.tokens.len() <= usize::MAX,
        c.tokens.len() <= usize::MAX,
    ensures
        if b.tokens.contains("<PAD>"@) {
            b.pad_id() < b.tokens.len() && b.tokens[b.pad_id() as int] == "<PAD>"@
        } else {
            b.pad_id() == 0
        },
        if b.tokens.contains("<BOS>"@) {
            b.bos_id() < b.tokens.len() && b.tokens[b.bos_id() as int] == "<BOS>"@
        } else {
            b.bos_id() == 2
        },
        if b.tokens.contains("<EOS>"@) {
            b.eos_id() < b.tokens.len() && b.tokens[b.eos_id() as int] == "<EOS>"@
        } else {
            b.eos_id() == 3
        },
        if c.tokens.contains("<PAD>"@) {
            c.pad_id() < c.tokens.len() && c.tokens[c.pad_id() as int] == "<PAD>"@
        } else {
            c.pad_id() == 0
        },
        if c.tokens.contains("<BOS>"@) {
            c.bos_id() < c.tokens.len() && c.tokens[c.bos_id() as int] == "<BOS>"@
        } else {
            c.bos_id() == 2
        },
        if c.tokens.contains("<EOS>"@) {
            c.eos_id() < c.tokens.len() && c.tokens[c.eos_id() as int] == "<EOS>"@
        } else {
            c.eos_id() == 3
        },
{
    merges::lemma_last_index(b.tokens, "<PAD>"@);
    merges::lemma_last_index(b.tokens, "<BOS>"@);
    merges::lemma_last_index(b.tokens, "<EOS>"@);
    merges::lemma_last_index(c.tokens, "<PAD>"@);
    merges::lemma_last_index(c.tokens, "<BOS>"@);
    merges::lemma_last_index(c.tokens, "<EOS>"@);
}

/// Of equal tokens the last one gives the id, and of equal characters too.
pub proof fn law_the_last_of_equals_gives_the_id(
    b: BpeModel,
    s: CharBpeModel,
    c: CharModel,
    t: Seq<char>,
    ch: char,
    fallback: usize,
)
    requires
        b.tokens.len() <= usize::MAX,
        s.tokens.len() <= usize::MAX,
        c.chars.len() <= usize::MAX,
    ensures
        b.tokens.contains(t) ==> b.id_or(t, fallback) < b.tokens.len() && forall|j: int|
            b.id_or(t, fallback) < j < b.tokens.len() ==> #[trigger] b.tokens[j] != t,
        s.tokens.contains(t) ==> s.id_or(t, fallback) < s.tokens.len() && forall|j: int|
            s.id_or(t, fallback) < j < s.tokens.len() ==> #[trigger] s.tokens[j] != t,
        forall|j: int|
            0 < j < c.chars.len() && c.id_of(ch) < j ==> #[trigger] c.chars[j] != ch,
{
    merges::lemma_last_index(b.tokens, t);
    merges::lemma_last_index(s.tokens, t);
    let letters = c.letters();
    merges::lemma_last_index(letters, ch);
    assert forall|j: int| 0 < j < c.chars.len() && c.id_of(ch) < j implies #[trigger] c.chars[j]
        != ch by {
        assert(letters[j - 1] == c.chars[j]);
        if c.chars[j] == ch {
            assert(letters.contains(ch));
        }
    }
}

} // verus!
