//! What holds of every `BpeTokenizer`.

use vstd::prelude::*;

use crate::bpe_tokenizer::{self, BpeModel, Decoded};
use crate::merges;
use crate::pair_table::Pair;
use crate::pairs::{self, Word};
use crate::text::{self, CharClass};

verus! {

/// The tokens of some bytes, joined.
pub open spec fn spell_out(bytes: Seq<u8>) -> Seq<char>
    decreases bytes.len(),
{
    if bytes.len() == 0 {
        Seq::empty()
    } else {
        bpe_tokenizer::byte_text(bytes[0]) + spell_out(bytes.skip(1))
    }
}

/// Parts of a word as symbols: the last part carries the end marker.
pub open spec fn render(parts: Seq<Seq<u8>>) -> Seq<Seq<char>> {
    Seq::new(
        parts.len(),
        |k: int|
            if k == parts.len() - 1 {
                spell_out(parts[k]) + bpe_tokenizer::word_end()
            } else {
                spell_out(parts[k])
            },
    )
}

/// No part is empty.
pub open spec fn solid(parts: Seq<Seq<u8>>) -> bool {
    forall|k: int| 0 <= k < parts.len() ==> (#[trigger] parts[k]).len() > 0
}

proof fn lemma_spell_out_concat(a: Seq<u8>, b: Seq<u8>)
    ensures
        spell_out(a + b) == spell_out(a) + spell_out(b),
    decreases a.len(),
{
    if a.len() == 0 {
        assert(a + b =~= b);
        assert(spell_out(a) + spell_out(b) =~= spell_out(b));
    } else {
        lemma_spell_out_concat(a.skip(1), b);
        assert((a + b).skip(1) =~= a.skip(1) + b);
        assert(spell_out(a + b) =~= spell_out(a) + spell_out(b));
    }
}

/// A byte is read back from its token.
proof fn lemma_byte_comes_back(b: u8)
    ensures
        bpe_tokenizer::spelled(
            bpe_tokenizer::byte_text(b)[1],
            bpe_tokenizer::byte_text(b)[2],
            bpe_tokenizer::byte_text(b)[3],
        ) == Some(b),
{
    let x = b as int / 100;
    let y = (b as int / 10) % 10;
    let z = b as int % 10;
    assert(0 <= x <= 2 && 0 <= y <= 9 && 0 <= z <= 9);
    assert(100 * x + 10 * y + z == b);
    assert(bpe_tokenizer::digit_value(text::digit(x)) == Some(x));
    assert(bpe_tokenizer::digit_value(text::digit(y)) == Some(y));
    assert(bpe_tokenizer::digit_value(text::digit(z)) == Some(z));
}

/// Bytes are read back from their tokens, joined.
proof fn lemma_bytes_come_back(bytes: Seq<u8>)
    ensures
        bpe_tokenizer::token_bytes(spell_out(bytes)) == bytes,
        bpe_tokenizer::sliceable(spell_out(bytes)),
        spell_out(bytes).len() == 4 * bytes.len(),
    decreases bytes.len(),
{
    let t = spell_out(bytes);
    if bytes.len() == 0 {
        assert(bpe_tokenizer::token_bytes(t) =~= bytes);
    } else {
        let first = bpe_tokenizer::byte_text(bytes[0]);
        let rest = spell_out(bytes.skip(1));
        lemma_bytes_come_back(bytes.skip(1));
        lemma_byte_comes_back(bytes[0]);
        assert(t[0] == first[0] && t[1] == first[1] && t[2] == first[2] && t[3] == first[3]);
        assert(t.skip(4) =~= rest);
        assert(bpe_tokenizer::token_bytes(t) =~= bytes);
    }
}

/// The last character of spelled bytes is a digit, the first a `b`.
proof fn lemma_spelled_ends(bytes: Seq<u8>)
    requires
        bytes.len() > 0,
    ensures
        spell_out(bytes).len() >= 4,
        spell_out(bytes)[0] == 'b',
        spell_out(bytes).last() != '>',
    decreases bytes.len(),
{
    let t = spell_out(bytes);
    let first = bpe_tokenizer::byte_text(bytes[0]);
    assert(t[0] == first[0]);
    if bytes.len() == 1 {
        assert(bytes.skip(1) =~= Seq::<u8>::empty());
        assert(spell_out(Seq::<u8>::empty()) =~= Seq::<char>::empty());
        assert(t =~= first);
        assert(first[3] == text::digit(bytes[0] as int % 10));
    } else {
        lemma_spelled_ends(bytes.skip(1));
        assert(t.last() == spell_out(bytes.skip(1)).last());
    }
}

/// A token made of bytes is no reserved marker, and its body and end are found.
proof fn lemma_token_shape(bytes: Seq<u8>, end: bool)
    requires
        bytes.len() > 0,
    ensures
        ({
            let t = if end {
                spell_out(bytes) + bpe_tokenizer::word_end()
            } else {
                spell_out(bytes)
            };
            &&& !bpe_tokenizer::is_reserved(t)
            &&& bpe_tokenizer::ends_word(t) == end
            &&& bpe_tokenizer::body(t) == spell_out(bytes)
        }),
{
    reveal_strlit("</w>");
    reveal_strlit("<PAD>");
    reveal_strlit("<UNK>");
    reveal_strlit("<BOS>");
    reveal_strlit("<EOS>");
    let plain = spell_out(bytes);
    lemma_spelled_ends(bytes);
    assert(!bpe_tokenizer::ends_word(plain)) by {
        if bpe_tokenizer::ends_word(plain) {
            assert(plain.skip(plain.len() - 4)[3] == plain.last());
            assert(bpe_tokenizer::word_end()[3] == '>');
        }
    }
    let ended = plain + bpe_tokenizer::word_end();
    assert(ended.len() == plain.len() + 4);
    assert(ended.skip(ended.len() - 4) =~= bpe_tokenizer::word_end());
    assert(ended.take(ended.len() - 4) =~= plain);
    assert(bpe_tokenizer::body(plain) == plain);
    assert(bpe_tokenizer::body(ended) == plain);
    assert(ended[0] == 'b');
    assert("<PAD>"@[0] == '<' && "<UNK>"@[0] == '<' && "<BOS>"@[0] == '<' && "<EOS>"@[0] == '<');
}

/// `parts` with two neighbours joined.
spec fn join_parts(parts: Seq<Seq<u8>>, i: int) -> Seq<Seq<u8>> {
    parts.take(i) + seq![parts[i] + parts[i + 1]] + parts.skip(i + 2)
}

/// Joining symbols is joining parts.
proof fn lemma_join_parts(parts: Seq<Seq<u8>>, i: int)
    requires
        0 <= i < parts.len() - 1,
        solid(parts),
    ensures
        merges::join_at(render(parts), i) == render(join_parts(parts, i)),
        text::joined(join_parts(parts, i)) == text::joined(parts),
        solid(join_parts(parts, i)),
{
    let a = parts[i];
    let b = parts[i + 1];
    let left = parts.take(i);
    let right = parts.skip(i + 2);
    let next = join_parts(parts, i);
    lemma_spell_out_concat(a, b);
    assert forall|k: int| 0 <= k < next.len() implies merges::join_at(render(parts), i)[k]
        == #[trigger] render(next)[k] by {
        if k < i {
            assert(next[k] == parts[k]);
        } else if k > i {
            assert(next[k] == parts[k + 1]);
        } else {
            assert(render(parts)[i] + render(parts)[i + 1] =~= render(next)[i]);
        }
    }
    assert(merges::join_at(render(parts), i) =~= render(next));
    assert forall|k: int| 0 <= k < next.len() implies (#[trigger] next[k]).len() > 0 by {
        if k < i {
            assert(next[k] == parts[k]);
        } else if k > i {
            assert(next[k] == parts[k + 1]);
        } else {
            assert(parts[i].len() > 0);
        }
    }
    assert(parts =~= left + seq![a] + seq![b] + right);
    text::lemma_joined_concat(left + seq![a] + seq![b], right);
    text::lemma_joined_concat(left + seq![a], seq![b]);
    text::lemma_joined_concat(left, seq![a]);
    text::lemma_joined_concat(left + seq![a + b], right);
    text::lemma_joined_concat(left, seq![a + b]);
    text::lemma_joined_one(a);
    text::lemma_joined_one(b);
    text::lemma_joined_one(a + b);
    assert(text::joined(next) =~= text::joined(parts));
}

/// Merging a word cuts its bytes into parts.
proof fn lemma_merged_word(parts: Seq<Seq<u8>>, list: Seq<Pair>) -> (after: Seq<Seq<u8>>)
    requires
        solid(parts),
    ensures
        solid(after),
        merges::apply_merges(render(parts), list) == render(after),
        text::joined(after) == text::joined(parts),
    decreases parts.len(),
{
    let symbols = render(parts);
    if exists|i: int| merges::lowest_at(symbols, list, i) {
        let i = choose|i: int| merges::lowest_at(symbols, list, i);
        lemma_join_parts(parts, i);
        merges::lemma_apply_step(symbols, list, i);
        lemma_merged_word(join_parts(parts, i), list)
    } else {
        parts
    }
}

/// The bytes, each a part of its own.
spec fn single_bytes(bytes: Seq<u8>) -> Seq<Seq<u8>> {
    Seq::new(bytes.len(), |i: int| seq![bytes[i]])
}

proof fn lemma_single_bytes(bytes: Seq<u8>)
    ensures
        solid(single_bytes(bytes)),
        text::joined(single_bytes(bytes)) == bytes,
        bpe_tokenizer::byte_symbols(bytes) == render(single_bytes(bytes)),
    decreases bytes.len(),
{
    let parts = single_bytes(bytes);
    assert forall|k: int| 0 <= k < bytes.len() implies bpe_tokenizer::byte_text(bytes[k])
        == #[trigger] spell_out(parts[k]) by {
        assert(parts[k].skip(1) =~= Seq::<u8>::empty());
        assert(spell_out(Seq::<u8>::empty()) =~= Seq::<char>::empty());
        assert(spell_out(parts[k]) =~= bpe_tokenizer::byte_text(bytes[k]));
    }
    assert(bpe_tokenizer::byte_symbols(bytes) =~= render(parts));
    if bytes.len() == 0 {
        assert(text::joined(parts) =~= bytes);
    } else {
        let shorter = bytes.drop_last();
        lemma_single_bytes(shorter);
        assert(parts.drop_last() =~= single_bytes(shorter));
        assert(text::joined(parts) =~= bytes);
    }
}

impl BpeModel {
    /// The ids fit a `usize`, the first tokens are there, and every merge made a
    /// token.
    pub open spec fn valid(self) -> bool {
        &&& self.tokens.len() <= usize::MAX
        &&& merges::all_known(self.tokens, bpe_tokenizer::initial_tokens())
        &&& merges::closed_under(self.tokens, self.merges)
    }
}

/// Decoding goes on from what was found before.
proof fn lemma_decode_all_concat(m: BpeModel, left: Seq<usize>, right: Seq<usize>)
    ensures
        m.decode_all(left + right) == decode_from(m, m.decode_all(left), right),
    decreases right.len(),
{
    if right.len() == 0 {
        assert(left + right =~= left);
    } else {
        lemma_decode_all_concat(m, left, right.drop_last());
        assert((left + right).drop_last() =~= left + right.drop_last());
    }
}

/// What decoding finds from `d` on.
spec fn decode_from(m: BpeModel, d: Decoded, ids: Seq<usize>) -> Decoded
    decreases ids.len(),
{
    if ids.len() == 0 {
        d
    } else {
        m.decode_next(decode_from(m, d, ids.drop_last()), ids.last())
    }
}

/// The parts of a word before its last add their bytes.
proof fn lemma_parts_decode(m: BpeModel, parts: Seq<Seq<u8>>, n: int, d: Decoded)
    requires
        m.tokens.len() <= usize::MAX,
        solid(parts),
        merges::all_known(m.tokens, render(parts)),
        0 <= n < parts.len(),
        d.current.len() == 0,
    ensures
        decode_from(m, d, m.ids_of(render(parts)).take(n)) == (Decoded {
            words: d.words,
            current: text::joined(parts.take(n)),
        }),
    decreases n,
{
    let ids = m.ids_of(render(parts));
    if n == 0 {
        assert(text::joined(parts.take(0)) =~= d.current);
    } else {
        lemma_parts_decode(m, parts, n - 1, d);
        lemma_part_token(m, parts, n - 1);
        assert(ids.take(n).drop_last() =~= ids.take(n - 1));
        assert(parts.take(n).drop_last() =~= parts.take(n - 1));
    }
}

/// The id of a part stands for its bytes.
proof fn lemma_part_token(m: BpeModel, parts: Seq<Seq<u8>>, k: int)
    requires
        m.tokens.len() <= usize::MAX,
        solid(parts),
        merges::all_known(m.tokens, render(parts)),
        0 <= k < parts.len(),
    ensures
        ({
            let id = m.ids_of(render(parts))[k];
            &&& id < m.tokens.len()
            &&& !bpe_tokenizer::is_reserved(m.tokens[id as int])
            &&& bpe_tokenizer::ends_word(m.tokens[id as int]) == (k == parts.len() - 1)
            &&& bpe_tokenizer::token_bytes(bpe_tokenizer::body(m.tokens[id as int])) == parts[k]
        }),
{
    let symbol = render(parts)[k];
    merges::lemma_last_index(m.tokens, symbol);
    lemma_token_shape(parts[k], k == parts.len() - 1);
    lemma_bytes_come_back(parts[k]);
}

/// The symbols of bytes are tokens.
proof fn lemma_byte_symbols_known(m: BpeModel, bytes: Seq<u8>)
    requires
        m.valid(),
    ensures
        merges::all_known(m.tokens, bpe_tokenizer::byte_symbols(bytes)),
{
    assert forall|k: int| 0 <= k < bytes.len() implies m.tokens.contains(
        #[trigger] bpe_tokenizer::byte_symbols(bytes)[k],
    ) by {
        let at = 4 + 2 * bytes[k] as int + if k == bytes.len() - 1 {
            1int
        } else {
            0int
        };
        let all = bpe_tokenizer::all_byte_tokens();
        assert((at - 4) / 2 == bytes[k] as int);
        assert(((at - 4) / 2) as u8 == bytes[k]);
        assert(bpe_tokenizer::initial_tokens()[at] == all[at - 4]);
        assert(all[at - 4] == bpe_tokenizer::byte_symbols(bytes)[k]);
    }
}

/// A word that is not empty has bytes.
proof fn lemma_word_has_bytes(w: Seq<char>)
    requires
        w.len() > 0,
    ensures
        vstd::utf8::encode_utf8(w).len() > 0,
{
    let bytes = vstd::utf8::encode_utf8(w);
    vstd::utf8::encode_utf8_decode_utf8(w);
    if bytes.len() == 0 {
        assert(bytes =~= vstd::utf8::encode_utf8(Seq::<char>::empty()));
        vstd::utf8::encode_utf8_decode_utf8(Seq::<char>::empty());
    }
}

/// The ids of a word decode to the word.
proof fn lemma_word_decodes(m: BpeModel, w: Seq<char>, d: Decoded)
    requires
        m.valid(),
        w.len() > 0,
        d.current.len() == 0,
    ensures
        decode_from(m, d, m.ids_of(m.encode_word(w))) == (Decoded {
            words: d.words.push(w),
            current: Seq::empty(),
        }),
{
    let bytes = vstd::utf8::encode_utf8(w);
    lemma_single_bytes(bytes);
    let parts = lemma_merged_word(single_bytes(bytes), m.merges);
    assert(m.encode_word(w) == render(parts));
    lemma_byte_symbols_known(m, bytes);
    merges::lemma_merging_stays_in_the_vocabulary(
        m.tokens,
        bpe_tokenizer::byte_symbols(bytes),
        m.merges,
    );
    lemma_word_has_bytes(w);
    assert(parts.len() > 0) by {
        if parts.len() == 0 {
            assert(text::joined(parts) =~= Seq::<u8>::empty());
        }
    }
    let n = parts.len() - 1;
    let ids = m.ids_of(render(parts));
    lemma_parts_decode(m, parts, n, d);
    lemma_part_token(m, parts, n);
    assert(ids.drop_last() =~= ids.take(n));
    assert(parts.take(n) =~= parts.drop_last());
    vstd::utf8::encode_utf8_valid_utf8(w);
    vstd::utf8::encode_utf8_decode_utf8(w);
    assert(text::joined(parts) == bytes);
}

/// The words with ASCII punctuation trimmed off, without the empty ones.
pub open spec fn plain_words(words: Seq<Seq<char>>) -> Seq<Seq<char>>
    decreases words.len(),
{
    if words.len() == 0 {
        Seq::empty()
    } else {
        let w = text::trim(words.last(), CharClass::AsciiPunctuation);
        if w.len() == 0 {
            plain_words(words.drop_last())
        } else {
            plain_words(words.drop_last()).push(w)
        }
    }
}

proof fn lemma_decode_from_concat(m: BpeModel, d: Decoded, left: Seq<usize>, right: Seq<usize>)
    ensures
        decode_from(m, d, left + right) == decode_from(m, decode_from(m, d, left), right),
    decreases right.len(),
{
    if right.len() == 0 {
        assert(left + right =~= left);
    } else {
        lemma_decode_from_concat(m, d, left, right.drop_last());
        assert((left + right).drop_last() =~= left + right.drop_last());
    }
}

/// The ids of words decode to the words.
proof fn lemma_words_decode(m: BpeModel, words: Seq<Seq<char>>, d: Decoded)
    requires
        m.valid(),
        d.current.len() == 0,
    ensures
        decode_from(m, d, m.encode_words(words)) == (Decoded {
            words: d.words + plain_words(words),
            current: Seq::empty(),
        }),
    decreases words.len(),
{
    if words.len() == 0 {
        assert(d.words + plain_words(words) =~= d.words);
        assert(d.current =~= Seq::empty());
    } else {
        let shorter = words.drop_last();
        let w = text::trim(words.last(), CharClass::AsciiPunctuation);
        let middle = decode_from(m, d, m.encode_words(shorter));
        lemma_words_decode(m, shorter, d);
        if w.len() == 0 {
            assert(m.encode_words(shorter) + Seq::<usize>::empty() =~= m.encode_words(shorter));
        } else {
            lemma_decode_from_concat(
                m,
                d,
                m.encode_words(shorter),
                m.ids_of(m.encode_word(w)),
            );
            lemma_word_decodes(m, w, middle);
            assert((d.words + plain_words(shorter)).push(w) =~= d.words + plain_words(words));
        }
    }
}

/// A reserved marker adds nothing.
proof fn lemma_marker_decodes(m: BpeModel, t: Seq<char>, fallback: usize, d: Decoded)
    requires
        m.tokens.len() <= usize::MAX,
        m.tokens.contains(t),
        bpe_tokenizer::is_reserved(t),
    ensures
        decode_from(m, d, seq![m.id_or(t, fallback)]) == d,
{
    merges::lemma_last_index(m.tokens, t);
    let ids = seq![m.id_or(t, fallback)];
    assert(ids.drop_last() =~= Seq::<usize>::empty());
    assert(decode_from(m, d, Seq::<usize>::empty()) == d);
}

/// Encoding and decoding give the words of a text, with ASCII punctuation
/// trimmed off, and one space between each two.
pub proof fn law_bpe_gives_back_the_words(m: BpeModel, s: Seq<char>)
    requires
        m.valid(),
    ensures
        m.decode(m.encode(s)) == text::joined_with(plain_words(text::words(s)), " "@),
        m.decode(m.encode_prompt(s)) == text::joined_with(plain_words(text::words(s)), " "@),
{
    let none = Decoded { words: Seq::empty(), current: Seq::empty() };
    let words = text::words(s);
    let initial = bpe_tokenizer::initial_tokens();
    assert(initial[2] == "<BOS>"@ && initial[3] == "<EOS>"@);
    assert(m.tokens.contains(initial[2]) && m.tokens.contains(initial[3]));
    let bos = seq![m.bos_id()];
    let eos = seq![m.eos_id()];
    let inner = m.encode_words(words);
    let empty_ids = Seq::<usize>::empty();
    assert(m.decode_all(empty_ids) == none);
    lemma_decode_all_concat(m, empty_ids, m.encode(s));
    lemma_decode_all_concat(m, empty_ids, m.encode_prompt(s));
    assert(empty_ids + m.encode(s) =~= m.encode(s));
    assert(empty_ids + m.encode_prompt(s) =~= m.encode_prompt(s));
    lemma_decode_from_concat(m, none, bos, inner);
    lemma_decode_from_concat(m, none, bos + inner, eos);
    lemma_marker_decodes(m, "<BOS>"@, 2, none);
    lemma_words_decode(m, words, none);
    let after = decode_from(m, none, bos + inner);
    lemma_marker_decodes(m, "<EOS>"@, 3, after);
    assert(none.words + plain_words(words) =~= plain_words(words));
}

/// Two bytes with the same token are the same.
proof fn lemma_byte_text_injective(a: u8, b: u8)
    requires
        bpe_tokenizer::byte_text(a) == bpe_tokenizer::byte_text(b),
    ensures
        a == b,
{
    lemma_byte_comes_back(a);
    lemma_byte_comes_back(b);
}

/// The first vocabulary has 516 tokens and repeats none.
pub proof fn law_first_tokens_differ()
    ensures
        bpe_tokenizer::initial_tokens().len() == 516,
        bpe_tokenizer::initial_tokens().no_duplicates(),
{
    reveal_strlit("</w>");
    reveal_strlit("<PAD>");
    reveal_strlit("<UNK>");
    reveal_strlit("<BOS>");
    reveal_strlit("<EOS>");
    let t = bpe_tokenizer::initial_tokens();
    let all = bpe_tokenizer::all_byte_tokens();
    assert("<PAD>"@[1] == 'P' && "<UNK>"@[1] == 'U' && "<BOS>"@[1] == 'B' && "<EOS>"@[1] == 'E');
    assert("<PAD>"@[0] == '<' && "<UNK>"@[0] == '<' && "<BOS>"@[0] == '<' && "<EOS>"@[0] == '<');
    assert forall|i: int, j: int| 0 <= i < j < t.len() implies t[i] != t[j] by {
        if i >= 4 {
            let x = ((i - 4) / 2) as u8;
            let y = ((j - 4) / 2) as u8;
            assert(t[i] == all[i - 4] && t[j] == all[j - 4]);
            if t[i] == t[j] {
                assert(t[i].take(4) =~= bpe_tokenizer::byte_text(x));
                assert(t[j].take(4) =~= bpe_tokenizer::byte_text(y));
                lemma_byte_text_injective(x, y);
                assert(t[i].len() == if (i - 4) % 2 == 0 {
                    4nat
                } else {
                    8nat
                });
                assert(t[j].len() == if (j - 4) % 2 == 0 {
                    4nat
                } else {
                    8nat
                });
            }
        } else if j >= 4 {
            assert(t[j] == all[j - 4]);
            assert(t[j][0] == 'b');
            assert(t[i][0] == '<');
        }
    }
}

/// A trained tokenizer holds the reserved markers under ids 0 to 3 and all
/// bytes, repeats no token, and has a token for each merge.
pub proof fn law_bpe_training_is_valid(m: BpeModel, words: Seq<Word>, size: nat)
    requires
        m.tokens.len() <= usize::MAX,
        merges::learned(words, bpe_tokenizer::initial_tokens(), m.merges, m.tokens, size),
    ensures
        m.valid(),
        m.tokens.no_duplicates(),
        bpe_tokenizer::initial_tokens().is_prefix_of(m.tokens),
        m.pad_id() == 0,
        m.id_or("<UNK>"@, 0) == 1,
        m.bos_id() == 2,
        m.eos_id() == 3,
{
    let initial = bpe_tokenizer::initial_tokens();
    law_first_tokens_differ();
    merges::lemma_tokens_after(initial, m.merges);
    assert forall|k: int| 0 <= k < initial.len() implies m.tokens.contains(#[trigger] initial[k]) by {
        assert(m.tokens[k] == initial[k]);
    }
    assert(m.tokens[0] == initial[0] && m.tokens[1] == initial[1]);
    assert(m.tokens[2] == initial[2] && m.tokens[3] == initial[3]);
    merges::lemma_last_index(m.tokens, m.tokens[0]);
    merges::lemma_last_index(m.tokens, m.tokens[1]);
    merges::lemma_last_index(m.tokens, m.tokens[2]);
    merges::lemma_last_index(m.tokens, m.tokens[3]);
}

/// The token spells bytes, and may end a word.
pub open spec fn shaped(t: Seq<char>) -> bool {
    exists|bytes: Seq<u8>|
        bytes.len() > 0 && (t == #[trigger] spell_out(bytes) || t == spell_out(bytes)
            + bpe_tokenizer::word_end())
}

/// The symbols are the parts of a word.
spec fn is_cut(symbols: Seq<Seq<char>>) -> bool {
    exists|parts: Seq<Seq<u8>>| solid(parts) && #[trigger] render(parts) == symbols
}

spec fn all_cut(words: Seq<Word>) -> bool {
    forall|i: int| 0 <= i < words.len() ==> is_cut(#[trigger] words[i].symbols)
}

/// Parts behind the first two, or behind the first.
proof fn lemma_render_skip(parts: Seq<Seq<u8>>, n: int)
    requires
        0 <= n <= parts.len(),
        solid(parts),
    ensures
        render(parts).skip(n) == render(parts.skip(n)),
        solid(parts.skip(n)),
{
    assert forall|k: int| 0 <= k < parts.skip(n).len() implies (#[trigger] parts.skip(n)[k]).len()
        > 0 by {
        assert(parts.skip(n)[k] == parts[n + k]);
    }
    assert(render(parts).skip(n) =~= render(parts.skip(n)));
}

/// Joining the first two parts changes nothing of what all parts join to.
proof fn lemma_first_two_joined(parts: Seq<Seq<u8>>, rest: Seq<Seq<u8>>)
    requires
        parts.len() >= 2,
        text::joined(rest) == text::joined(parts.skip(2)),
    ensures
        text::joined(seq![parts[0] + parts[1]] + rest) == text::joined(parts),
{
    let first = seq![parts[0]];
    let second = seq![parts[1]];
    assert(parts =~= first + second + parts.skip(2));
    text::lemma_joined_concat(first + second, parts.skip(2));
    text::lemma_joined_concat(first, second);
    text::lemma_joined_concat(seq![parts[0] + parts[1]], rest);
    text::lemma_joined_one(parts[0]);
    text::lemma_joined_one(parts[1]);
    text::lemma_joined_one(parts[0] + parts[1]);
}

/// Merging a pair in parts of a word gives parts of a word.
proof fn lemma_merge_keeps_cut(
    parts: Seq<Seq<u8>>,
    a: Seq<char>,
    b: Seq<char>,
) -> (after: Seq<Seq<u8>>)
    requires
        solid(parts),
    ensures
        solid(after),
        merges::merge_pair(render(parts), a, b) == render(after),
        text::joined(after) == text::joined(parts),
        parts.len() > 0 ==> after.len() > 0,
    decreases parts.len(),
{
    let symbols = render(parts);
    if parts.len() == 0 {
        assert(merges::merge_pair(symbols, a, b) =~= render(parts));
        parts
    } else if symbols.len() >= 2 && symbols[0] == a && symbols[1] == b {
        lemma_render_skip(parts, 2);
        let rest = lemma_merge_keeps_cut(parts.skip(2), a, b);
        let after = seq![parts[0] + parts[1]] + rest;
        lemma_spell_out_concat(parts[0], parts[1]);
        if rest.len() == 0 {
            assert(parts.len() == 2);
        }
        assert forall|k: int| 0 <= k < after.len() implies (#[trigger] after[k]).len() > 0 by {
            if k == 0 {
                assert(parts[0].len() > 0);
            } else {
                assert(after[k] == rest[k - 1]);
            }
        }
        assert(a == spell_out(parts[0]));
        if rest.len() == 0 {
            assert(b == spell_out(parts[1]) + bpe_tokenizer::word_end());
        } else {
            assert(parts.len() > 2) by {
                if parts.len() == 2 {
                    assert(parts.skip(2) =~= Seq::empty());
                    assert(render(rest) =~= Seq::empty());
                }
            }
            assert(b == spell_out(parts[1]));
        }
        assert(a + b =~= render(after)[0]);
        assert(seq![a + b] + render(rest) =~= render(after));
        lemma_first_two_joined(parts, rest);
        after
    } else {
        lemma_render_skip(parts, 1);
        let rest = lemma_merge_keeps_cut(parts.skip(1), a, b);
        let after = seq![parts[0]] + rest;
        assert forall|k: int| 0 <= k < after.len() implies (#[trigger] after[k]).len() > 0 by {
            if k == 0 {
                assert(parts[0].len() > 0);
            } else {
                assert(after[k] == rest[k - 1]);
            }
        }
        if rest.len() == 0 {
            assert(parts.len() == 1);
        }
        assert(seq![symbols[0]] + render(rest) =~= render(after));
        assert(parts =~= seq![parts[0]] + parts.skip(1));
        text::lemma_joined_concat(seq![parts[0]], parts.skip(1));
        text::lemma_joined_concat(seq![parts[0]], rest);
        after
    }
}

/// Words stay cut into parts as pairs are merged.
proof fn lemma_words_stay_cut(words: Seq<Word>, list: Seq<Pair>)
    requires
        all_cut(words),
    ensures
        all_cut(merges::words_after(words, list)),
    decreases list.len(),
{
    if list.len() > 0 {
        let before = merges::words_after(words, list.drop_last());
        let after = merges::words_after(words, list);
        let p = list.last();
        lemma_words_stay_cut(words, list.drop_last());
        assert forall|i: int| 0 <= i < after.len() implies is_cut(#[trigger] after[i].symbols) by {
            assert(is_cut(before[i].symbols));
            let parts = choose|parts: Seq<Seq<u8>>|
                solid(parts) && #[trigger] render(parts) == before[i].symbols;
            let next = lemma_merge_keeps_cut(parts, p.0, p.1);
            assert(render(next) == after[i].symbols);
        }
    }
}

/// A pair that occurs in words cut into parts joins to a token that spells
/// bytes.
proof fn lemma_pair_is_shaped(words: Seq<Word>, p: Pair)
    requires
        all_cut(words),
        pairs::occurs(words, p),
    ensures
        shaped(p.0 + p.1),
{
    let w = choose|w: int| 0 <= w < words.len() && pairs::has_pair(#[trigger] words[w].symbols, p);
    let symbols = words[w].symbols;
    assert(is_cut(symbols));
    let parts = choose|parts: Seq<Seq<u8>>| solid(parts) && #[trigger] render(parts) == symbols;
    let i = choose|i: int|
        0 <= i < symbols.len() - 1 && #[trigger] pairs::pair_at(symbols, i) == p;
    lemma_spell_out_concat(parts[i], parts[i + 1]);
    let bytes = parts[i] + parts[i + 1];
    assert(parts[i].len() > 0);
    if i + 1 == parts.len() - 1 {
        assert(p.0 + p.1 =~= spell_out(bytes) + bpe_tokenizer::word_end());
    } else {
        assert(p.0 + p.1 =~= spell_out(bytes));
    }
}

/// Every learned token spells bytes.
proof fn lemma_learned_tokens_are_shaped(
    words: Seq<Word>,
    before: Seq<Seq<char>>,
    new: Seq<Pair>,
    k: int,
)
    requires
        all_cut(words),
        forall|i: int|
            0 <= i < before.len() ==> bpe_tokenizer::is_reserved(#[trigger] before[i]) || shaped(
                before[i],
            ),
        forall|i: int|
            0 <= i < new.len() ==> pairs::most_frequent(
                merges::words_after(words, #[trigger] new.take(i)),
                new[i],
            ),
        0 <= k <= new.len(),
    ensures
        forall|i: int|
            0 <= i < merges::tokens_after(before, new.take(k)).len() ==> bpe_tokenizer::is_reserved(
                #[trigger] merges::tokens_after(before, new.take(k))[i],
            ) || shaped(merges::tokens_after(before, new.take(k))[i]),
    decreases k,
{
    if k > 0 {
        lemma_learned_tokens_are_shaped(words, before, new, k - 1);
        assert(new.take(k).drop_last() =~= new.take(k - 1));
        lemma_words_stay_cut(words, new.take(k - 1));
        assert(pairs::most_frequent(merges::words_after(words, new.take(k - 1)), new[k - 1]));
        lemma_pair_is_shaped(merges::words_after(words, new.take(k - 1)), new[k - 1]);
        assert(new.take(k).last() == new[k - 1]);
        let middle = merges::tokens_after(before, new.take(k - 1));
        let after = merges::tokens_after(before, new.take(k));
        assert forall|i: int| 0 <= i < after.len() implies bpe_tokenizer::is_reserved(
            #[trigger] after[i],
        ) || shaped(after[i]) by {
            if i < middle.len() {
                assert(after[i] == middle[i]);
            }
        }
    } else {
        assert(new.take(0) =~= Seq::<Pair>::empty());
    }
}

/// All ids of a trained tokenizer can be decoded.
pub proof fn law_trained_bpe_decodes_everything(
    m: BpeModel,
    list: Seq<Seq<char>>,
    size: nat,
    ids: Seq<usize>,
)
    requires
        merges::learned(
            bpe_tokenizer::weighted_words(list),
            bpe_tokenizer::initial_tokens(),
            m.merges,
            m.tokens,
            size,
        ),
    ensures
        m.decodable(ids),
{
    let words = bpe_tokenizer::weighted_words(list);
    let initial = bpe_tokenizer::initial_tokens();
    assert forall|i: int| 0 <= i < words.len() implies is_cut(#[trigger] words[i].symbols) by {
        let bytes = vstd::utf8::encode_utf8(crate::word_freq::distinct(list)[i]);
        lemma_single_bytes(bytes);
        assert(render(single_bytes(bytes)) == words[i].symbols);
    }
    assert forall|i: int| 0 <= i < initial.len() implies bpe_tokenizer::is_reserved(
        #[trigger] initial[i],
    ) || shaped(initial[i]) by {
        if i >= 4 {
            let b = ((i - 4) / 2) as u8;
            assert(initial[i] == bpe_tokenizer::all_byte_tokens()[i - 4]);
            lemma_single_bytes(seq![b]);
            let parts = single_bytes(seq![b]);
            assert(parts[0] =~= seq![b]);
            assert(seq![b].skip(1) =~= Seq::<u8>::empty());
            assert(spell_out(Seq::<u8>::empty()) =~= Seq::<char>::empty());
            assert(spell_out(seq![b]) =~= bpe_tokenizer::byte_text(b));
        }
    }
    lemma_learned_tokens_are_shaped(words, initial, m.merges, m.merges.len() as int);
    assert(m.merges.take(m.merges.len() as int) =~= m.merges);
    assert forall|i: int|
        0 <= i < ids.len() && (#[trigger] ids[i]) < m.tokens.len() && !bpe_tokenizer::is_reserved(
            m.tokens[ids[i] as int],
        ) implies bpe_tokenizer::sliceable(
        bpe_tokenizer::body(m.tokens[ids[i] as int]),
    ) by {
        let t = m.tokens[ids[i] as int];
        assert(shaped(t));
        let bytes = choose|bytes: Seq<u8>|
            bytes.len() > 0 && (t == #[trigger] spell_out(bytes) || t == spell_out(bytes)
                + bpe_tokenizer::word_end());
        lemma_token_shape(bytes, t != spell_out(bytes));
        lemma_bytes_come_back(bytes);
    }
}

/// The symbols are parts of the bytes.
spec fn cuts(symbols: Seq<Seq<char>>, bytes: Seq<u8>) -> bool {
    exists|parts: Seq<Seq<u8>>|
        solid(parts) && text::joined(parts) == bytes && #[trigger] render(parts) == symbols
}

/// Merging a pair turns tokens into tokens.
proof fn lemma_merge_pair_known(
    tokens: Seq<Seq<char>>,
    symbols: Seq<Seq<char>>,
    a: Seq<char>,
    b: Seq<char>,
)
    requires
        merges::all_known(tokens, symbols),
        tokens.contains(a + b),
    ensures
        merges::all_known(tokens, merges::merge_pair(symbols, a, b)),
    decreases symbols.len(),
{
    if symbols.len() > 0 {
        let after = merges::merge_pair(symbols, a, b);
        let n: int = if symbols.len() >= 2 && symbols[0] == a && symbols[1] == b {
            2
        } else {
            1
        };
        let rest = symbols.skip(n);
        assert forall|k: int| 0 <= k < rest.len() implies tokens.contains(#[trigger] rest[k]) by {
            assert(rest[k] == symbols[k + n]);
        }
        lemma_merge_pair_known(tokens, rest, a, b);
        assert forall|k: int| 0 <= k < after.len() implies tokens.contains(#[trigger] after[k]) by {
            if k > 0 {
                assert(after[k] == merges::merge_pair(rest, a, b)[k - 1]);
            } else if n == 1 {
                assert(after[0] == symbols[0]);
            }
        }
    }
}

/// As pairs are merged, the symbols of a word stay parts of its bytes, and tokens.
proof fn lemma_word_stays_whole(
    words: Seq<Word>,
    list: Seq<Pair>,
    tokens: Seq<Seq<char>>,
    i: int,
    bytes: Seq<u8>,
)
    requires
        0 <= i < words.len(),
        cuts(words[i].symbols, bytes),
        merges::all_known(tokens, words[i].symbols),
        merges::closed_under(tokens, list),
    ensures
        merges::words_after(words, list).len() == words.len(),
        cuts(merges::words_after(words, list)[i].symbols, bytes),
        merges::all_known(tokens, merges::words_after(words, list)[i].symbols),
    decreases list.len(),
{
    if list.len() > 0 {
        let shorter = list.drop_last();
        let p = list.last();
        assert forall|k: int| 0 <= k < shorter.len() implies tokens.contains(
            (#[trigger] shorter[k]).0 + shorter[k].1,
        ) by {
            assert(shorter[k] == list[k]);
        }
        lemma_word_stays_whole(words, shorter, tokens, i, bytes);
        let before = merges::words_after(words, shorter)[i].symbols;
        let after = merges::words_after(words, list)[i].symbols;
        let parts = choose|parts: Seq<Seq<u8>>|
            solid(parts) && text::joined(parts) == bytes && #[trigger] render(parts) == before;
        let next = lemma_merge_keeps_cut(parts, p.0, p.1);
        assert(render(next) == after);
        assert(p == list[list.len() - 1]);
        lemma_merge_pair_known(tokens, before, p.0, p.1);
    }
}

/// No word of a corpus is empty.
proof fn lemma_corpus_words_have_letters(corpus: Seq<&str>, w: Seq<char>)
    requires
        bpe_tokenizer::corpus_words(corpus).contains(w),
    ensures
        w.len() > 0,
    decreases corpus.len(),
{
    if corpus.len() > 0 {
        let before = bpe_tokenizer::corpus_words(corpus.drop_last());
        let last = bpe_tokenizer::lower_words(corpus.last()@);
        let i = choose|i: int| 0 <= i < (before + last).len() && (before + last)[i] == w;
        if i < before.len() {
            assert(before[i] == w);
            lemma_corpus_words_have_letters(corpus.drop_last(), w);
        } else {
            assert(last[i - before.len()] == w);
            let s = corpus.last()@;
            lemma_kept_have_letters(
                Seq::new(
                    text::words(s).len(),
                    |i: int| bpe_tokenizer::lowercase(text::words(s)[i]),
                ),
            );
        }
    }
}

proof fn lemma_kept_have_letters(list: Seq<Seq<char>>)
    ensures
        forall|i: int|
            0 <= i < bpe_tokenizer::kept(list).len() ==> (#[trigger] bpe_tokenizer::kept(
                list,
            )[i]).len() > 0,
    decreases list.len(),
{
    if list.len() > 0 {
        let shorter = list.drop_last();
        lemma_kept_have_letters(shorter);
        assert forall|i: int| 0 <= i < bpe_tokenizer::kept(list).len() implies (
        #[trigger] bpe_tokenizer::kept(list)[i]).len() > 0 by {
            if i < bpe_tokenizer::kept(shorter).len() {
                assert(bpe_tokenizer::kept(list)[i] == bpe_tokenizer::kept(shorter)[i]);
            }
        }
    }
}

/// Where learning ends before the vocabulary has the size asked for, every word of
/// the corpus has become a token, which decodes to the word.
pub proof fn law_an_early_end_leaves_whole_words(
    m: BpeModel,
    corpus: Seq<&str>,
    size: nat,
    w: Seq<char>,
)
    requires
        m.tokens.len() <= usize::MAX,
        merges::learned(
            bpe_tokenizer::weighted_words(bpe_tokenizer::corpus_words(corpus)),
            bpe_tokenizer::initial_tokens(),
            m.merges,
            m.tokens,
            size,
        ),
        m.tokens.len() < size,
        bpe_tokenizer::corpus_words(corpus).contains(w),
    ensures
        ({
            let token = spell_out(vstd::utf8::encode_utf8(w)) + bpe_tokenizer::word_end();
            let id = m.id_or(token, m.unk_id);
            &&& id < m.tokens.len()
            &&& m.tokens[id as int] == token
            &&& m.decodable(seq![id])
            &&& m.decode(seq![id]) == w
        }),
{
    let list = bpe_tokenizer::corpus_words(corpus);
    let words = bpe_tokenizer::weighted_words(list);
    let distinct = crate::word_freq::distinct(list);
    let bytes = vstd::utf8::encode_utf8(w);
    law_bpe_training_is_valid(m, words, size);
    lemma_corpus_words_have_letters(corpus, w);
    lemma_word_has_bytes(w);
    crate::word_freq::lemma_distinct(list);
    assert(distinct.contains(w));
    let i = choose|i: int| 0 <= i < distinct.len() && distinct[i] == w;
    lemma_single_bytes(bytes);
    assert(render(single_bytes(bytes)) == words[i].symbols);
    assert(cuts(words[i].symbols, bytes));
    lemma_byte_symbols_known(m, bytes);
    lemma_word_stays_whole(words, m.merges, m.tokens, i, bytes);
    let after = merges::words_after(words, m.merges);
    let symbols = after[i].symbols;
    let parts = choose|parts: Seq<Seq<u8>>|
        solid(parts) && text::joined(parts) == bytes && #[trigger] render(parts) == symbols;
    assert(symbols.len() <= 1) by {
        if symbols.len() > 1 {
            let p = pairs::pair_at(symbols, 0);
            assert(pairs::has_pair(symbols, p));
            assert(pairs::occurs(after, p));
        }
    }
    assert(parts.len() > 0) by {
        if parts.len() == 0 {
            assert(text::joined(parts) =~= Seq::<u8>::empty());
        }
    }
    assert(parts =~= seq![parts[0]]);
    text::lemma_joined_one(parts[0]);
    assert(parts[0] == bytes);
    let token = render(parts)[0];
    let id = m.ids_of(render(parts))[0];
    lemma_part_token(m, parts, 0);
    merges::lemma_last_index(m.tokens, token);
    law_trained_bpe_decodes_everything(m, list, size, seq![id]);
    vstd::utf8::encode_utf8_valid_utf8(w);
    vstd::utf8::encode_utf8_decode_utf8(w);
    let none = Decoded { words: Seq::empty(), current: Seq::empty() };
    assert(seq![id].drop_last() =~= Seq::<usize>::empty());
    assert(m.decode_all(Seq::<usize>::empty()) == none);
    assert(none.current + bytes =~= bytes);
    assert(m.decode_all(seq![id]).words =~= seq![w]);
}

/// A text of a list that is not empty is kept.
proof fn lemma_kept_has(list: Seq<Seq<char>>, j: int)
    requires
        0 <= j < list.len(),
        list[j].len() > 0,
    ensures
        bpe_tokenizer::kept(list).contains(list[j]),
    decreases list.len(),
{
    let shorter = list.drop_last();
    let before = bpe_tokenizer::kept(shorter);
    let after = bpe_tokenizer::kept(list);
    if j == shorter.len() {
        assert(after[before.len() as int] == list[j]);
    } else {
        lemma_kept_has(shorter, j);
        let k = choose|k: int| 0 <= k < before.len() && before[k] == list[j];
        assert(after[k] == list[j]);
    }
}

/// The words of each text are words of the corpus.
proof fn lemma_corpus_has_words(corpus: Seq<&str>, i: int, w: Seq<char>)
    requires
        0 <= i < corpus.len(),
        bpe_tokenizer::lower_words(corpus[i]@).contains(w),
    ensures
        bpe_tokenizer::corpus_words(corpus).contains(w),
    decreases corpus.len(),
{
    let shorter = corpus.drop_last();
    let before = bpe_tokenizer::corpus_words(shorter);
    let last = bpe_tokenizer::lower_words(corpus.last()@);
    let all = bpe_tokenizer::corpus_words(corpus);
    assert(all == before + last);
    if i == shorter.len() {
        let k = choose|k: int| 0 <= k < last.len() && last[k] == w;
        assert(all[before.len() + k] == w);
    } else {
        assert(shorter[i] == corpus[i]);
        lemma_corpus_has_words(shorter, i, w);
        let k = choose|k: int| 0 <= k < before.len() && before[k] == w;
        assert(all[k] == w);
    }
}

/// Where learning ends before the vocabulary has the size asked for, some token
/// alone decodes to each piece of the corpus between white space, in lower case.
pub proof fn law_an_early_end_leaves_a_token_for_each_piece(
    m: BpeModel,
    corpus: Seq<&str>,
    size: nat,
    i: int,
    j: int,
)
    requires
        m.tokens.len() <= usize::MAX,
        merges::learned(
            bpe_tokenizer::weighted_words(bpe_tokenizer::corpus_words(corpus)),
            bpe_tokenizer::initial_tokens(),
            m.merges,
            m.tokens,
            size,
        ),
        m.tokens.len() < size,
        0 <= i < corpus.len(),
        0 <= j < text::words(corpus[i]@).len(),
    ensures
        exists|id: usize|
            id < m.tokens.len() && m.decodable(seq![id]) && #[trigger] m.decode(seq![id])
                == bpe_tokenizer::lowercase(text::words(corpus[i]@)[j]),
{
    let s = corpus[i]@;
    let list = bpe_tokenizer::corpus_words(corpus);
    let w = bpe_tokenizer::lowercase(text::words(s)[j]);
    if w.len() > 0 {
        let lower = Seq::new(
            text::words(s).len(),
            |i: int| bpe_tokenizer::lowercase(text::words(s)[i]),
        );
        assert(lower[j] == w);
        lemma_kept_has(lower, j);
        lemma_corpus_has_words(corpus, i, w);
        law_an_early_end_leaves_whole_words(m, corpus, size, w);
        let token = spell_out(vstd::utf8::encode_utf8(w)) + bpe_tokenizer::word_end();
        let id = m.id_or(token, m.unk_id);
        assert(m.decode(seq![id]) == w);
    } else {
        let id: usize = 0;
        law_bpe_training_is_valid(m, bpe_tokenizer::weighted_words(list), size);
        law_first_tokens_differ();
        law_trained_bpe_decodes_everything(m, list, size, seq![id]);
        assert(m.tokens[0] == bpe_tokenizer::initial_tokens()[0]);
        assert(seq![id].drop_last() =~= Seq::<usize>::empty());
        assert(m.decode_all(Seq::<usize>::empty()).words.len() == 0);
        assert(m.decode(seq![id]) =~= w);
    }
}

} // verus!
