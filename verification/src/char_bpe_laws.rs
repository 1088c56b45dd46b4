//! What holds of every `CharBpeTokenizer`.

use vstd::prelude::*;

use crate::char_bpe_tokenizer::{self, CharBpeModel};
use crate::merge_laws;
use crate::merges;
use crate::pair_table::Pair;
use crate::pairs::{self, Word};
use crate::stored;
use crate::text;
use crate::word_freq;

verus! {

/// Cutting a text into words loses nothing.
pub proof fn law_pretokens_join_to_the_text(s: Seq<char>)
    ensures
        text::joined(char_bpe_tokenizer::pretokens(s)) == s,
    decreases s.len(),
{
    if s.len() == 0 {
        assert(text::joined(char_bpe_tokenizer::pretokens(s)) =~= s);
    } else {
        char_bpe_tokenizer::lemma_run_length_bounded(s);
        let n = if char_bpe_tokenizer::is_break(s[0]) {
            1
        } else {
            char_bpe_tokenizer::run_length(s) as int
        };
        let rest = char_bpe_tokenizer::pretokens(s.skip(n));
        law_pretokens_join_to_the_text(s.skip(n));
        text::lemma_joined_concat(seq![s.take(n)], rest);
        text::lemma_joined_one(s.take(n));
        assert(s.take(n) + s.skip(n) =~= s);
    }
}

impl CharBpeModel {
    /// The ids fit a `usize`, and every merge made a token.
    pub open spec fn valid(self) -> bool {
        &&& self.tokens.len() <= usize::MAX
        &&& merges::closed_under(self.tokens, self.merges)
    }

    /// Every character of `s` is a token.
    pub open spec fn covers(self, s: Seq<char>) -> bool {
        forall|i: int| 0 <= i < s.len() ==> self.tokens.contains(seq![#[trigger] s[i]])
    }

    /// No reserved marker is recognised in `s`.
    ///
    /// Without special tokens nothing is recognised as a whole; then no part of
    /// `s` may read like a reserved marker.
    pub open spec fn shows_all(self, s: Seq<char>) -> bool
        decreases s.len(),
    {
        let lt = text::find_char(s, '<');
        let gt = text::find_char_from(s, '>', lt);
        proof {
            text::lemma_find_char(s, '<');
            text::lemma_find_char(s.skip(lt), '>');
        }
        if self.special_tokens.len() == 0 {
            free_of_reserved(s)
        } else if gt >= s.len() {
            true
        } else {
            let marker = s.subrange(lt, gt + 1);
            if self.special_tokens.contains(marker) && self.tokens.contains(marker) {
                !char_bpe_tokenizer::reserved().contains(marker) && self.shows_all(s.skip(gt + 1))
            } else {
                self.shows_all(s.skip(lt + 1))
            }
        }
    }
}

/// No part of `s` is a reserved marker.
pub open spec fn free_of_reserved(s: Seq<char>) -> bool {
    forall|i: int, j: int|
        0 <= i <= j <= s.len() ==> !char_bpe_tokenizer::reserved().contains(
            #[trigger] s.subrange(i, j),
        )
}

/// No `<` in `s` is followed by a `>`.
spec fn free_of_brackets(s: Seq<char>) -> bool {
    forall|i: int, j: int|
        0 <= i < j < s.len() ==> !(#[trigger] s[i] == '<' && #[trigger] s[j] == '>')
}

/// Reserved markers start with `<` and end with `>`.
proof fn lemma_reserved_have_brackets(t: Seq<char>)
    requires
        char_bpe_tokenizer::reserved().contains(t),
    ensures
        t.len() == 5,
        t[0] == '<',
        t[4] == '>',
{
    reveal_strlit("<PAD>");
    reveal_strlit("<UNK>");
    reveal_strlit("<BOS>");
    reveal_strlit("<EOS>");
}

/// A text without bracketed parts holds no reserved marker.
proof fn lemma_no_brackets_no_reserved(s: Seq<char>)
    requires
        free_of_brackets(s),
    ensures
        free_of_reserved(s),
{
    assert forall|i: int, j: int| 0 <= i <= j <= s.len() implies !char_bpe_tokenizer::reserved().contains(
        #[trigger] s.subrange(i, j),
    ) by {
        let t = s.subrange(i, j);
        if char_bpe_tokenizer::reserved().contains(t) {
            lemma_reserved_have_brackets(t);
            assert(s[i] == t[0] && s[i + 4] == t[4]);
        }
    }
}

/// A token decodes from its id, unless it is a reserved marker.
proof fn lemma_token_comes_back(m: CharBpeModel, t: Seq<char>, fallback: usize)
    requires
        m.tokens.len() <= usize::MAX,
        m.tokens.contains(t),
    ensures
        m.text_of(m.id_or(t, fallback)) == (if char_bpe_tokenizer::reserved().contains(t) {
            Seq::empty()
        } else {
            t
        }),
{
    merges::lemma_last_index(m.tokens, t);
}

/// Decoding two lists of ids is decoding each.
pub proof fn lemma_decode_concat(m: CharBpeModel, left: Seq<usize>, right: Seq<usize>)
    ensures
        m.decode(left + right) == m.decode(left) + m.decode(right),
    decreases right.len(),
{
    if right.len() == 0 {
        assert(left + right =~= left);
        assert(m.decode(left) + m.decode(right) =~= m.decode(left));
    } else {
        lemma_decode_concat(m, left, right.drop_last());
        assert((left + right).drop_last() =~= left + right.drop_last());
        assert(m.decode(left + right) =~= m.decode(left) + m.decode(right));
    }
}

/// Tokens that are no reserved markers decode to what they join to.
proof fn lemma_symbols_come_back(m: CharBpeModel, symbols: Seq<Seq<char>>)
    requires
        m.tokens.len() <= usize::MAX,
        merges::all_known(m.tokens, symbols),
        forall|k: int|
            0 <= k < symbols.len() ==> !char_bpe_tokenizer::reserved().contains(
                #[trigger] symbols[k],
            ),
    ensures
        m.decode(m.ids_of(symbols)) == text::joined(symbols),
    decreases symbols.len(),
{
    let ids = m.ids_of(symbols);
    if symbols.len() == 0 {
        assert(m.decode(ids) =~= text::joined(symbols));
    } else {
        let shorter = symbols.drop_last();
        assert forall|k: int| 0 <= k < shorter.len() implies m.tokens.contains(
            #[trigger] shorter[k],
        ) && !char_bpe_tokenizer::reserved().contains(shorter[k]) by {
            assert(shorter[k] == symbols[k]);
        }
        lemma_symbols_come_back(m, shorter);
        assert(symbols[symbols.len() - 1] == symbols.last());
        lemma_token_comes_back(m, symbols.last(), m.unk_id);
        assert(ids.drop_last() =~= m.ids_of(shorter));
    }
}

/// A covered word comes back from its subwords.
proof fn lemma_word_comes_back(m: CharBpeModel, w: Seq<char>)
    requires
        m.valid(),
        m.covers(w),
        free_of_reserved(w),
    ensures
        m.decode(m.ids_of(m.encode_word(w))) == w,
{
    let letters = text::singletons(w);
    let symbols = m.encode_word(w);
    assert forall|k: int| 0 <= k < letters.len() implies m.tokens.contains(#[trigger] letters[k]) by {
        assert(letters[k] == seq![w[k]]);
    }
    merges::lemma_merging_stays_in_the_vocabulary(m.tokens, letters, m.merges);
    merges::lemma_merging_keeps_the_word(letters, m.merges);
    text::lemma_joined_singletons(w);
    assert forall|k: int| 0 <= k < symbols.len() implies !char_bpe_tokenizer::reserved().contains(
        #[trigger] symbols[k],
    ) by {
        let at = text::lemma_part_of_joined(symbols, k);
        assert(w.subrange(at, at + symbols[k].len()) == symbols[k]);
    }
    lemma_symbols_come_back(m, symbols);
}

/// Covered words come back.
proof fn lemma_words_come_back(m: CharBpeModel, words: Seq<Seq<char>>)
    requires
        m.valid(),
        m.covers(text::joined(words)),
        free_of_reserved(text::joined(words)),
    ensures
        m.decode(m.encode_words(words)) == text::joined(words),
    decreases words.len(),
{
    if words.len() == 0 {
        assert(m.decode(m.encode_words(words)) =~= text::joined(words));
    } else {
        let shorter = words.drop_last();
        let w = words.last();
        let all = text::joined(words);
        let n = text::joined(shorter).len() as int;
        assert(all.take(n) =~= text::joined(shorter));
        assert(all.skip(n) =~= w);
        lemma_parts_inherit(m, all, 0, n);
        lemma_parts_inherit(m, all, n, all.len() as int);
        assert(all.subrange(0, n) =~= text::joined(shorter));
        assert(all.subrange(n, all.len() as int) =~= w);
        lemma_words_come_back(m, shorter);
        lemma_word_comes_back(m, w);
        lemma_decode_concat(m, m.encode_words(shorter), m.ids_of(m.encode_word(w)));
    }
}

/// What holds of all characters or parts of a text holds of its parts.
proof fn lemma_parts_inherit(m: CharBpeModel, s: Seq<char>, from: int, to: int)
    requires
        0 <= from <= to <= s.len(),
    ensures
        m.covers(s) ==> m.covers(s.subrange(from, to)),
        free_of_reserved(s) ==> free_of_reserved(s.subrange(from, to)),
        free_of_brackets(s) ==> free_of_brackets(s.subrange(from, to)),
{
    let t = s.subrange(from, to);
    if m.covers(s) {
        assert forall|i: int| 0 <= i < t.len() implies m.tokens.contains(seq![#[trigger] t[i]]) by {
            assert(t[i] == s[from + i]);
        }
    }
    if free_of_reserved(s) {
        assert forall|i: int, j: int| 0 <= i <= j <= t.len() implies !char_bpe_tokenizer::reserved().contains(
            #[trigger] t.subrange(i, j),
        ) by {
            assert(t.subrange(i, j) =~= s.subrange(from + i, from + j));
        }
    }
    if free_of_brackets(s) {
        assert forall|i: int, j: int| 0 <= i < j < t.len() implies !(#[trigger] t[i] == '<'
            && #[trigger] t[j] == '>') by {
            assert(t[i] == s[from + i] && t[j] == s[from + j]);
        }
    }
}

/// A covered segment comes back.
proof fn lemma_segment_comes_back(m: CharBpeModel, s: Seq<char>)
    requires
        m.valid(),
        m.covers(s),
        free_of_reserved(s),
    ensures
        m.decode(m.encode_segment(s)) == s,
{
    law_pretokens_join_to_the_text(s);
    lemma_words_come_back(m, char_bpe_tokenizer::pretokens(s));
}

/// Encoding and decoding give a covered text back, where no reserved marker is
/// recognised in it.
pub proof fn law_encoding_is_lossless(m: CharBpeModel, s: Seq<char>)
    requires
        m.valid(),
        m.covers(s),
        m.shows_all(s),
    ensures
        m.decode(m.encode_inner(s)) == s,
    decreases s.len(),
{
    let lt = text::find_char(s, '<');
    let gt = text::find_char_from(s, '>', lt);
    text::lemma_find_char(s, '<');
    text::lemma_find_char(s.skip(lt), '>');
    let n = s.len() as int;
    if m.special_tokens.len() == 0 {
        lemma_segment_comes_back(m, s);
    } else if gt >= n {
        assert forall|i: int, j: int| 0 <= i < j < n implies !(#[trigger] s[i] == '<'
            && #[trigger] s[j] == '>') by {
            if s[i] == '<' {
                assert(lt <= i);
                assert(s.skip(lt)[j - lt] == s[j]);
            }
        }
        lemma_no_brackets_no_reserved(s);
        lemma_segment_comes_back(m, s);
    } else {
        let marker = s.subrange(lt, gt + 1);
        let known = m.special_tokens.contains(marker) && m.tokens.contains(marker);
        let head = if known {
            s.take(lt)
        } else {
            s.take(lt + 1)
        };
        let tail = if known {
            s.skip(gt + 1)
        } else {
            s.skip(lt + 1)
        };
        assert forall|i: int, j: int| 0 <= i < j < head.len() implies !(#[trigger] head[i] == '<'
            && #[trigger] head[j] == '>') by {
            assert(head[i] == s[i]);
        }
        lemma_no_brackets_no_reserved(head);
        assert(head =~= s.subrange(0, head.len() as int));
        assert(tail =~= s.subrange(n - tail.len(), n));
        lemma_parts_inherit(m, s, 0, head.len() as int);
        lemma_parts_inherit(m, s, n - tail.len(), n);
        lemma_segment_comes_back(m, head);
        law_encoding_is_lossless(m, tail);
        if known {
            let id = m.id_or(marker, 0);
            lemma_token_comes_back(m, marker, 0);
            lemma_decode_one(m, id);
            lemma_decode_concat(m, m.encode_segment(head), seq![id]);
            lemma_decode_concat(m, m.encode_segment(head) + seq![id], m.encode_inner(tail));
            assert(head + marker + tail =~= s);
        } else {
            lemma_decode_concat(m, m.encode_segment(head), m.encode_inner(tail));
            assert(head + tail =~= s);
        }
    }
}

/// One id decodes to its text.
proof fn lemma_decode_one(m: CharBpeModel, id: usize)
    ensures
        m.decode(seq![id]) == m.text_of(id),
{
    assert(seq![id].drop_last() =~= Seq::<usize>::empty());
    assert(m.decode(Seq::<usize>::empty()) =~= Seq::<char>::empty());
    assert(m.decode(seq![id]) =~= m.text_of(id));
}

/// A text that nowhere reads like a reserved marker has none recognised in it.
pub proof fn law_plain_text_shows_all(m: CharBpeModel, s: Seq<char>)
    requires
        free_of_reserved(s),
    ensures
        m.shows_all(s),
    decreases s.len(),
{
    let lt = text::find_char(s, '<');
    let gt = text::find_char_from(s, '>', lt);
    text::lemma_find_char(s, '<');
    text::lemma_find_char(s.skip(lt), '>');
    let n = s.len() as int;
    if m.special_tokens.len() > 0 && gt < n {
        let marker = s.subrange(lt, gt + 1);
        lemma_parts_inherit(m, s, gt + 1, n);
        lemma_parts_inherit(m, s, lt + 1, n);
        assert(s.skip(gt + 1) =~= s.subrange(gt + 1, n));
        assert(s.skip(lt + 1) =~= s.subrange(lt + 1, n));
        law_plain_text_shows_all(m, s.skip(gt + 1));
        law_plain_text_shows_all(m, s.skip(lt + 1));
    }
}

/// Prompts and training texts decode to the text they were made from.
pub proof fn law_prompt_and_training_ids_decode_to_the_text(m: CharBpeModel, s: Seq<char>)
    requires
        m.valid(),
        m.covers(s),
        m.shows_all(s),
        m.tokens.contains("<BOS>"@),
        m.tokens.contains("<EOS>"@),
    ensures
        m.decode(m.encode_prompt(s)) == s,
        m.decode(m.encode_long(s)) == s,
{
    let inner = m.encode_inner(s);
    let bos = m.bos_id();
    let eos = m.eos_id();
    assert(char_bpe_tokenizer::reserved()[2] == "<BOS>"@);
    assert(char_bpe_tokenizer::reserved()[3] == "<EOS>"@);
    law_encoding_is_lossless(m, s);
    lemma_token_comes_back(m, "<BOS>"@, 2);
    lemma_token_comes_back(m, "<EOS>"@, 3);
    lemma_decode_one(m, bos);
    lemma_decode_one(m, eos);
    lemma_decode_concat(m, seq![bos], inner);
    assert(m.decode(seq![bos] + inner) =~= s);
    let opened = if inner.len() > 0 && inner[0] == bos {
        inner
    } else {
        seq![bos] + inner
    };
    lemma_decode_concat(m, opened, seq![eos]);
    assert(opened + seq![eos] =~= opened.push(eos));
    assert(m.decode(opened.push(eos)) =~= s);
}

/// A training text starts with `<BOS>` and ends with `<EOS>`, and neither is
/// added to a text that brings both along.
pub proof fn law_training_ids_are_bracketed(m: CharBpeModel, s: Seq<char>)
    ensures
        m.encode_inner(s).len() > 0 && m.encode_inner(s).first() == m.bos_id() && m.encode_inner(
            s,
        ).last() == m.eos_id() ==> m.encode_long(s) == m.encode_inner(s),
        m.encode_long(s).len() > 0,
        m.encode_long(s).first() == m.bos_id(),
        m.encode_long(s).last() == m.eos_id(),
{
}

/// In a list without repetitions every element is found where it stands.
proof fn lemma_found_in_place(tokens: Seq<Seq<char>>, i: int)
    requires
        tokens.no_duplicates(),
        0 <= i < tokens.len(),
    ensures
        merges::last_index(tokens, tokens[i]) == Some(i),
{
    merges::lemma_last_index(tokens, tokens[i]);
}

/// A trained tokenizer holds the reserved markers under ids 0 to 3 and every
/// character of both texts, repeats no token, and has a token for each merge.
pub proof fn law_training_covers_its_texts(
    m: CharBpeModel,
    merge_text: Seq<char>,
    coverage_text: Seq<char>,
    size: nat,
)
    requires
        m.tokens.len() <= usize::MAX,
        merges::learned(
            char_bpe_tokenizer::char_words(merge_text),
            char_bpe_tokenizer::initial_tokens(coverage_text, merge_text),
            m.merges,
            m.tokens,
            size,
        ),
    ensures
        m.valid(),
        m.covers(merge_text),
        m.covers(coverage_text),
        m.tokens.no_duplicates(),
        char_bpe_tokenizer::reserved().is_prefix_of(m.tokens),
        m.pad_id() == 0,
        m.id_or("<UNK>"@, 0) == 1,
        m.bos_id() == 2,
        m.eos_id() == 3,
{
    let reserved = char_bpe_tokenizer::reserved();
    let covered = merges::registered_all(reserved, text::singletons(coverage_text));
    let initial = merges::registered_all(covered, text::singletons(merge_text));
    char_bpe_tokenizer::lemma_reserved_are_distinct();
    merges::lemma_registered_all(reserved, text::singletons(coverage_text));
    merges::lemma_registered_all(covered, text::singletons(merge_text));
    merges::lemma_tokens_after(initial, m.merges);
    assert forall|i: int| 0 <= i < coverage_text.len() implies m.tokens.contains(
        seq![#[trigger] coverage_text[i]],
    ) by {
        assert(covered.contains(text::singletons(coverage_text)[i]));
    }
    assert forall|i: int| 0 <= i < merge_text.len() implies m.tokens.contains(
        seq![#[trigger] merge_text[i]],
    ) by {
        assert(initial.contains(text::singletons(merge_text)[i]));
    }
    assert forall|i: int| 0 <= i < 4 implies reserved[i] == m.tokens[i] by {
        assert(reserved[i] == covered[i]);
        assert(covered[i] == initial[i]);
    }
    lemma_found_in_place(m.tokens, 0);
    lemma_found_in_place(m.tokens, 1);
    lemma_found_in_place(m.tokens, 2);
    lemma_found_in_place(m.tokens, 3);
}

/// A tokenizer gives back, unchanged, every text made of characters of the
/// texts it was trained on, where no reserved marker is recognised in it.
pub proof fn law_trained_tokenizer_is_lossless(
    m: CharBpeModel,
    merge_text: Seq<char>,
    coverage_text: Seq<char>,
    size: nat,
    s: Seq<char>,
)
    requires
        m.tokens.len() <= usize::MAX,
        merges::learned(
            char_bpe_tokenizer::char_words(merge_text),
            char_bpe_tokenizer::initial_tokens(coverage_text, merge_text),
            m.merges,
            m.tokens,
            size,
        ),
        forall|i: int|
            0 <= i < s.len() ==> merge_text.contains(#[trigger] s[i]) || coverage_text.contains(
                s[i],
            ),
        m.shows_all(s),
    ensures
        m.decode(m.encode_prompt(s)) == s,
        m.decode(m.encode_long(s)) == s,
{
    law_training_covers_its_texts(m, merge_text, coverage_text, size);
    assert forall|i: int| 0 <= i < s.len() implies m.tokens.contains(seq![#[trigger] s[i]]) by {
        if merge_text.contains(s[i]) {
            let k = choose|k: int| 0 <= k < merge_text.len() && merge_text[k] == s[i];
            assert(m.tokens.contains(seq![merge_text[k]]));
        } else {
            let k = choose|k: int| 0 <= k < coverage_text.len() && coverage_text[k] == s[i];
            assert(m.tokens.contains(seq![coverage_text[k]]));
        }
    }
    assert(m.tokens[2] == char_bpe_tokenizer::reserved()[2]);
    assert(m.tokens[3] == char_bpe_tokenizer::reserved()[3]);
    law_prompt_and_training_ids_decode_to_the_text(m, s);
}

/// Learning stops at the size asked for: there are never more tokens than that,
/// unless there were more to begin with, and then nothing is learned.
pub proof fn law_learning_respects_the_size(
    words: Seq<Word>,
    before: Seq<Seq<char>>,
    new: Seq<Pair>,
    after: Seq<Seq<char>>,
    size: nat,
)
    requires
        merges::learned(words, before, new, after, size),
    ensures
        before.len() >= size ==> new.len() == 0 && after == before,
        before.len() < size ==> after.len() <= size,
{
    if new.len() > 0 {
        let k = new.len() - 1;
        assert(new.take(0) =~= Seq::<Pair>::empty());
        assert(merges::tokens_after(before, new.take(0)).len() < size);
        assert(merges::tokens_after(before, new.take(k)).len() < size);
        assert(new.take(k) =~= new.drop_last());
    }
}

/// Adding a special token changes no id.
pub proof fn law_special_token_keeps_ids(m: CharBpeModel, token: Seq<char>)
    ensures
        m.tokens.is_prefix_of(merges::registered(m.tokens, token)),
        forall|t: Seq<char>|
            m.tokens.contains(t) ==> #[trigger] merges::last_index(
                merges::registered(m.tokens, token),
                t,
            ) == merges::last_index(m.tokens, t),
{
    merges::lemma_registered(m.tokens, token);
}

/// `token` can stand as a marker in a text: it starts with `<` and ends with the
/// first `>` behind that.
pub open spec fn is_marker(token: Seq<char>) -> bool {
    &&& token.len() >= 2
    &&& token[0] == '<'
    &&& token.last() == '>'
    &&& forall|i: int| 0 <= i < token.len() - 1 ==> #[trigger] token[i] != '>'
}

/// A special token that stands in a text as a marker is one id there, whatever
/// follows it. The text before it, up to the first `<`, is a segment of its own.
pub proof fn law_a_special_token_is_one_id(
    m: CharBpeModel,
    before: Seq<char>,
    token: Seq<char>,
    after: Seq<char>,
)
    requires
        is_marker(token),
        m.special_tokens.contains(token),
        m.tokens.contains(token),
        !before.contains('<'),
    ensures
        m.encode_inner(before + token + after) == m.encode_segment(before) + seq![
            m.id_or(token, 0),
        ] + m.encode_inner(after),
{
    let s = before + token + after;
    let lt = text::find_char(s, '<');
    let gt = text::find_char_from(s, '>', lt);
    text::lemma_find_char(s, '<');
    text::lemma_find_char(s.skip(lt), '>');
    assert(s[before.len() as int] == '<');
    assert(lt == before.len()) by {
        if lt < before.len() {
            assert(before[lt] == s[lt]);
            assert(before.contains('<'));
        }
    }
    let rest = s.skip(lt);
    let end = token.len() - 1;
    assert(rest[end] == token[end]);
    assert(gt == lt + end) by {
        if gt < lt + end {
            assert(rest[gt - lt] == token[gt - lt]);
        }
    }
    assert(s.subrange(lt, gt + 1) =~= token);
    assert(s.take(lt) =~= before);
    assert(s.skip(gt + 1) =~= after);
}

/// Once it is added, a special token is one id wherever it stands in a text as a
/// marker.
pub proof fn law_an_added_token_is_recognized(
    m: CharBpeModel,
    before: Seq<char>,
    token: Seq<char>,
    after: Seq<char>,
)
    requires
        is_marker(token),
        !before.contains('<'),
    ensures
        ({
            let n = m.with_special(token);
            n.encode_inner(before + token + after) == n.encode_segment(before) + seq![
                n.id_or(token, 0),
            ] + n.encode_inner(after)
        }),
        !m.tokens.contains(token) && m.tokens.len() <= usize::MAX ==> m.with_special(token).id_or(
            token,
            0,
        ) == m.tokens.len(),
{
    let n = m.with_special(token);
    assert(n.special_tokens.contains(token)) by {
        if m.special_tokens.contains(token) {
            let i = choose|i: int|
                0 <= i < m.special_tokens.len() && m.special_tokens[i] == token;
            assert(n.special_tokens[i] == token);
        } else {
            assert(n.special_tokens[m.special_tokens.len() as int] == token);
        }
    }
    assert(n.tokens.contains(token)) by {
        if !m.tokens.contains(token) {
            assert(n.tokens[m.tokens.len() as int] == token);
        }
    }
    law_a_special_token_is_one_id(n, before, token, after);
}

/// Extending the coverage changes no id and covers the new text.
pub proof fn law_extended_coverage_keeps_ids(m: CharBpeModel, additional: Seq<char>)
    ensures
        m.tokens.is_prefix_of(merges::registered_all(m.tokens, text::singletons(additional))),
        (CharBpeModel {
            tokens: merges::registered_all(m.tokens, text::singletons(additional)),
            ..m
        }).covers(additional),
        forall|t: Seq<char>|
            m.tokens.contains(t) ==> #[trigger] merges::last_index(
                merges::registered_all(m.tokens, text::singletons(additional)),
                t,
            ) == merges::last_index(m.tokens, t),
{
    let after = merges::registered_all(m.tokens, text::singletons(additional));
    merges::lemma_registered_all(m.tokens, text::singletons(additional));
    assert forall|i: int| 0 <= i < additional.len() implies after.contains(
        seq![#[trigger] additional[i]],
    ) by {
        assert(after.contains(text::singletons(additional)[i]));
    }
}

/// Registering the symbols of words keeps what is there, in place.
proof fn lemma_with_symbols(m: CharBpeModel, words: Seq<Word>)
    ensures
        m.tokens.is_prefix_of(m.with_symbols(words)),
        forall|u: Seq<char>| m.tokens.contains(u) ==> m.with_symbols(words).contains(u),
        forall|u: Seq<char>|
            m.tokens.contains(u) ==> #[trigger] merges::last_index(m.with_symbols(words), u)
                == merges::last_index(m.tokens, u),
    decreases words.len(),
{
    if words.len() > 0 {
        let middle = m.with_symbols(words.drop_last());
        lemma_with_symbols(m, words.drop_last());
        merges::lemma_registered_all(middle, words.last().symbols);
        assert forall|i: int| 0 <= i < m.tokens.len() implies m.tokens[i] == m.with_symbols(
            words,
        )[i] by {
            assert(m.tokens[i] == middle[i]);
        }
    }
}

/// Learning more merges changes no id: every token keeps its own.
pub proof fn law_extended_merges_keep_ids(
    m: CharBpeModel,
    n: CharBpeModel,
    additional: Seq<char>,
    size: nat,
)
    requires
        m.extends_to(n, additional, size),
    ensures
        m.tokens.is_prefix_of(n.tokens),
        forall|t: Seq<char>|
            m.tokens.contains(t) ==> #[trigger] merges::last_index(n.tokens, t)
                == merges::last_index(m.tokens, t),
{
    if size > m.tokens.len() {
        let words = m.subwords(additional);
        let middle = m.with_symbols(words);
        let run = choose|run: Seq<Pair>| m.extends_by(n, additional, size, run);
        lemma_with_symbols(m, words);
        merges::lemma_tokens_after(middle, run);
        assert forall|i: int| 0 <= i < m.tokens.len() implies m.tokens[i] == n.tokens[i] by {
            assert(m.tokens[i] == middle[i]);
        }
    } else {
        assert(m.tokens =~= n.tokens.take(m.tokens.len() as int));
    }
}

/// Learning more merges moves no merge: every pair keeps its rank, and the new ones
/// come behind.
pub proof fn law_extended_merges_keep_ranks(
    m: CharBpeModel,
    n: CharBpeModel,
    additional: Seq<char>,
    size: nat,
)
    requires
        m.extends_to(n, additional, size),
    ensures
        m.merges.is_prefix_of(n.merges),
        forall|p: Pair|
            m.merges.contains(p) ==> #[trigger] merges::last_index(n.merges, p)
                == merges::last_index(m.merges, p),
        forall|k: int|
            m.merges.len() <= k < n.merges.len() ==> !m.merges.contains(#[trigger] n.merges[k]),
{
    if size > m.tokens.len() {
        let run = choose|run: Seq<Pair>| m.extends_by(n, additional, size, run);
        merges::lemma_appended(m.merges, run);
    } else {
        assert(m.merges =~= n.merges.take(m.merges.len() as int));
    }
}

/// Learning more merges keeps a tokenizer lossless: its vocabulary still covers
/// what it covered and has a token for each merge.
pub proof fn law_extended_merges_stay_valid(
    m: CharBpeModel,
    n: CharBpeModel,
    additional: Seq<char>,
    size: nat,
    s: Seq<char>,
)
    requires
        m.valid(),
        m.covers(s),
        n.tokens.len() <= usize::MAX,
        m.extends_to(n, additional, size),
    ensures
        n.valid(),
        n.covers(s),
{
    if size > m.tokens.len() {
        let words = m.subwords(additional);
        let run = choose|run: Seq<Pair>| m.extends_by(n, additional, size, run);
        lemma_with_symbols(m, words);
        merges::lemma_tokens_after(m.with_symbols(words), run);
        merges::lemma_appended(m.merges, run);
        assert(m.merges =~= n.merges.take(m.merges.len() as int));
        assert forall|k: int| 0 <= k < n.merges.len() implies n.tokens.contains(
            (#[trigger] n.merges[k]).0 + n.merges[k].1,
        ) by {
            if k < m.merges.len() {
                assert(m.merges[k] == n.merges[k]);
            } else {
                let j = choose|j: int| 0 <= j < run.len() && run[j] == n.merges[k];
                assert(n.tokens.contains(run[j].0 + run[j].1));
            }
        }
    }
}

/// Training learns no pair twice, and each pair stood side by side when it was
/// merged.
pub proof fn law_training_repeats_no_pair(
    merge_text: Seq<char>,
    before: Seq<Seq<char>>,
    run: Seq<Pair>,
    after: Seq<Seq<char>>,
    size: nat,
)
    requires
        merges::learned(char_bpe_tokenizer::char_words(merge_text), before, run, after, size),
    ensures
        run.no_duplicates(),
        merge_laws::sound(run),
{
    let words = char_bpe_tokenizer::char_words(merge_text);
    let texts = word_freq::distinct(char_bpe_tokenizer::pretokens(merge_text));
    let none = Seq::<Pair>::empty();
    assert(merge_laws::sound(none)) by {
        reveal(merge_laws::sound);
    }
    merge_laws::lemma_learned_merges_are_sound(none, texts, words, before, run, after, size);
    assert(none + run =~= run);
    merge_laws::law_sound_merges_repeat_no_pair(run);
}

/// No word of a text is empty.
proof fn lemma_pretokens_have_letters(s: Seq<char>)
    ensures
        forall|i: int|
            0 <= i < char_bpe_tokenizer::pretokens(s).len() ==> (
            #[trigger] char_bpe_tokenizer::pretokens(s)[i]).len() > 0,
    decreases s.len(),
{
    if s.len() > 0 {
        char_bpe_tokenizer::lemma_run_length_bounded(s);
        let n = if char_bpe_tokenizer::is_break(s[0]) {
            1
        } else {
            char_bpe_tokenizer::run_length(s) as int
        };
        let all = char_bpe_tokenizer::pretokens(s);
        let rest = char_bpe_tokenizer::pretokens(s.skip(n));
        lemma_pretokens_have_letters(s.skip(n));
        assert forall|i: int| 0 <= i < all.len() implies (#[trigger] all[i]).len() > 0 by {
            if i > 0 {
                assert(all[i] == rest[i - 1]);
            }
        }
    }
}

/// Where training ends before the vocabulary has the size asked for, every word of
/// the text is one token.
pub proof fn law_an_early_end_leaves_whole_words(
    m: CharBpeModel,
    merge_text: Seq<char>,
    before: Seq<Seq<char>>,
    size: nat,
    w: Seq<char>,
)
    requires
        merges::learned(
            char_bpe_tokenizer::char_words(merge_text),
            before,
            m.merges,
            m.tokens,
            size,
        ),
        m.tokens.len() < size,
        char_bpe_tokenizer::pretokens(merge_text).contains(w),
    ensures
        m.encode_word(w) == seq![w],
{
    let pieces = char_bpe_tokenizer::pretokens(merge_text);
    let words = char_bpe_tokenizer::char_words(merge_text);
    let texts = word_freq::distinct(pieces);
    let after = merges::words_after(words, m.merges);
    law_training_repeats_no_pair(merge_text, before, m.merges, m.tokens, size);
    word_freq::lemma_distinct(pieces);
    assert(texts.contains(w));
    let i = choose|i: int| 0 <= i < texts.len() && texts[i] == w;
    merge_laws::lemma_words_in_turn(words, m.merges);
    merge_laws::law_lowest_rank_first_is_merging_in_turn(text::singletons(w), m.merges);
    let symbols = after[i].symbols;
    assert(symbols == m.encode_word(w));
    assert(symbols.len() <= 1) by {
        if symbols.len() > 1 {
            let p = pairs::pair_at(symbols, 0);
            assert(pairs::has_pair(symbols, p));
            assert(pairs::occurs(after, p));
        }
    }
    merges::lemma_merging_keeps_the_word(text::singletons(w), m.merges);
    text::lemma_joined_singletons(w);
    let k = choose|k: int| 0 <= k < pieces.len() && pieces[k] == w;
    lemma_pretokens_have_letters(merge_text);
    assert(pieces[k].len() > 0);
    if symbols.len() == 0 {
        assert(text::joined(symbols) =~= Seq::<char>::empty());
    }
    assert(symbols =~= seq![symbols[0]]);
    text::lemma_joined_one(symbols[0]);
}

/// Learning more merges on top of those that training and extending learned meets
/// none of them again: all that is learned comes behind them, and all merges
/// together are as if they had been learned at once.
pub proof fn law_extending_repeats_no_pair(
    m: CharBpeModel,
    n: CharBpeModel,
    additional: Seq<char>,
    size: nat,
)
    requires
        merge_laws::sound(m.merges),
        m.extends_to(n, additional, size),
    ensures
        n.merges.no_duplicates(),
        merge_laws::sound(n.merges),
        size > m.tokens.len() ==> merges::learned(
            m.subwords(additional),
            m.with_symbols(m.subwords(additional)),
            n.merges.skip(m.merges.len() as int),
            n.tokens,
            size,
        ),
{
    if size > m.tokens.len() {
        let words = m.subwords(additional);
        let texts = word_freq::distinct(char_bpe_tokenizer::pretokens(additional));
        let run = choose|run: Seq<Pair>| m.extends_by(n, additional, size, run);
        let all = m.merges + run;
        assert forall|i: int| 0 <= i < words.len() implies (#[trigger] words[i]).symbols
            == merge_laws::merged_in_turn(text::singletons(texts[i]), m.merges) by {
            merge_laws::law_lowest_rank_first_is_merging_in_turn(
                text::singletons(texts[i]),
                m.merges,
            );
        }
        merge_laws::lemma_learned_merges_are_sound(
            m.merges,
            texts,
            words,
            m.with_symbols(words),
            run,
            n.tokens,
            size,
        );
        merge_laws::law_sound_merges_repeat_no_pair(all);
        assert forall|k: int| 0 <= k < run.len() implies !m.merges.contains(#[trigger] run[k]) by {
            if m.merges.contains(run[k]) {
                let j = choose|j: int| 0 <= j < m.merges.len() && m.merges[j] == run[k];
                assert(all[j] == all[m.merges.len() + k]);
            }
        }
        merges::lemma_appended_whole(m.merges, run);
        assert(n.merges.skip(m.merges.len() as int) =~= run);
    } else {
        merge_laws::law_sound_merges_repeat_no_pair(m.merges);
    }
}

/// Merging only ever shortens.
proof fn lemma_apply_shortens(symbols: Seq<Seq<char>>, list: Seq<Pair>)
    ensures
        merges::apply_merges(symbols, list).len() <= symbols.len(),
    decreases symbols.len(),
{
    if exists|i: int| merges::lowest_at(symbols, list, i) {
        let i = choose|i: int| merges::lowest_at(symbols, list, i);
        lemma_apply_shortens(merges::join_at(symbols, i), list);
    }
}

/// A pair that `extra` does not hold keeps its rank when `extra` is added.
proof fn lemma_rank_in_longer_list(list: Seq<Pair>, extra: Seq<Pair>, p: Pair)
    ensures
        match merges::last_index(extra, p) {
            Some(i) => merges::last_index(list + extra, p) == Some(list.len() + i),
            None => merges::last_index(list + extra, p) == merges::last_index(list, p),
        },
    decreases extra.len(),
{
    if extra.len() == 0 {
        assert(list + extra =~= list);
    } else {
        lemma_rank_in_longer_list(list, extra.drop_last(), p);
        assert((list + extra).drop_last() =~= list + extra.drop_last());
    }
}

/// Merges behind others, none of which they repeat, are applied after them.
proof fn lemma_later_merges_are_applied_last(
    symbols: Seq<Seq<char>>,
    list: Seq<Pair>,
    extra: Seq<Pair>,
)
    requires
        forall|k: int| 0 <= k < extra.len() ==> !list.contains(#[trigger] extra[k]),
    ensures
        merges::apply_merges(symbols, list + extra) == merges::apply_merges(
            merges::apply_merges(symbols, list),
            list + extra,
        ),
    decreases symbols.len(),
{
    let longer = list + extra;
    if exists|i: int| merges::lowest_at(symbols, list, i) {
        let i = choose|i: int| merges::lowest_at(symbols, list, i);
        assert forall|j: int| 0 <= j < symbols.len() - 1 implies match merges::rank_at(
            symbols,
            list,
            j,
        ) {
            Some(r) => #[trigger] merges::rank_at(symbols, longer, j) == Some(r) && r < list.len(),
            None => match merges::rank_at(symbols, longer, j) {
                Some(r) => r >= list.len(),
                None => true,
            },
        } by {
            let p = pairs::pair_at(symbols, j);
            lemma_rank_in_longer_list(list, extra, p);
            merges::lemma_last_index(list, p);
            merges::lemma_last_index(extra, p);
        }
        assert(merges::rank_at(symbols, longer, i) == merges::rank_at(symbols, list, i));
        assert(merges::lowest_at(symbols, longer, i));
        merges::lemma_apply_step(symbols, longer, i);
        merges::lemma_apply_step(symbols, list, i);
        lemma_later_merges_are_applied_last(merges::join_at(symbols, i), list, extra);
    }
}

/// An extended tokenizer splits a word as before and goes on from there. So a word
/// never takes more tokens than it did.
pub proof fn law_more_merges_compress(
    m: CharBpeModel,
    n: CharBpeModel,
    additional: Seq<char>,
    size: nat,
    w: Seq<char>,
)
    requires
        m.extends_to(n, additional, size),
    ensures
        n.encode_word(w) == merges::apply_merges(m.encode_word(w), n.merges),
        n.encode_word(w).len() <= m.encode_word(w).len(),
{
    let extra = n.merges.skip(m.merges.len() as int);
    law_extended_merges_keep_ranks(m, n, additional, size);
    assert(m.merges + extra =~= n.merges);
    assert forall|k: int| 0 <= k < extra.len() implies !m.merges.contains(#[trigger] extra[k]) by {
        assert(extra[k] == n.merges[k + m.merges.len()]);
    }
    lemma_later_merges_are_applied_last(text::singletons(w), m.merges, extra);
    lemma_apply_shortens(m.encode_word(w), n.merges);
}

/// An extended tokenizer takes no more tokens for a list of words.
proof fn lemma_words_compress(
    m: CharBpeModel,
    n: CharBpeModel,
    additional: Seq<char>,
    size: nat,
    words: Seq<Seq<char>>,
)
    requires
        m.extends_to(n, additional, size),
    ensures
        n.encode_words(words).len() <= m.encode_words(words).len(),
    decreases words.len(),
{
    if words.len() > 0 {
        lemma_words_compress(m, n, additional, size, words.drop_last());
        law_more_merges_compress(m, n, additional, size, words.last());
    }
}

/// An extended tokenizer takes no more tokens for a text, where every special token
/// has an id.
pub proof fn law_extended_tokenizers_compress(
    m: CharBpeModel,
    n: CharBpeModel,
    additional: Seq<char>,
    size: nat,
    s: Seq<char>,
)
    requires
        m.extends_to(n, additional, size),
        merges::all_known(m.tokens, m.special_tokens),
    ensures
        n.encode_inner(s).len() <= m.encode_inner(s).len(),
        n.encode_prompt(s).len() <= m.encode_prompt(s).len(),
    decreases s.len(),
{
    let lt = text::find_char(s, '<');
    let gt = text::find_char_from(s, '>', lt);
    text::lemma_find_char(s, '<');
    text::lemma_find_char(s.skip(lt), '>');
    assert(n.special_tokens == m.special_tokens);
    if m.special_tokens.len() == 0 || gt >= s.len() {
        lemma_words_compress(m, n, additional, size, char_bpe_tokenizer::pretokens(s));
    } else {
        let marker = s.subrange(lt, gt + 1);
        if m.special_tokens.contains(marker) {
            assert(m.tokens.contains(marker)) by {
                let k = choose|k: int|
                    0 <= k < m.special_tokens.len() && m.special_tokens[k] == marker;
                assert(m.tokens.contains(m.special_tokens[k]));
            }
            law_extended_merges_keep_ids(m, n, additional, size);
            assert(n.tokens.contains(marker)) by {
                merges::lemma_last_index(m.tokens, marker);
                merges::lemma_last_index(n.tokens, marker);
            }
            let before = char_bpe_tokenizer::pretokens(s.take(lt));
            lemma_words_compress(m, n, additional, size, before);
            law_extended_tokenizers_compress(m, n, additional, size, s.skip(gt + 1));
        } else {
            let before = char_bpe_tokenizer::pretokens(s.take(lt + 1));
            lemma_words_compress(m, n, additional, size, before);
            law_extended_tokenizers_compress(m, n, additional, size, s.skip(lt + 1));
        }
    }
}

/// A tokenizer comes back from its checkpoint.
pub proof fn law_tokenizer_comes_back(m: CharBpeModel)
    ensures
        stored::loadable(m.weights()),
        CharBpeModel::of_weights(m.weights()) == m,
{
    reveal_strlit("kind");
    reveal_strlit("id_to_token");
    reveal_strlit("unk_id");
    reveal_strlit("merges");
    reveal_strlit("special_tokens");
    stored::lemma_unflattened(m.merges);
    assert("kind"@.len() == 4 && "unk_id"@.len() == 6);
    assert("id_to_token"@.len() == 11 && "merges"@.len() == 6 && "special_tokens"@.len() == 14);
    assert(CharBpeModel::of_weights(m.weights()) =~= m);
}

} // verus!
