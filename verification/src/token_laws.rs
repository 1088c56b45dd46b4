//! What holds of cutting texts into words and tokens.

use vstd::prelude::*;

use crate::bpe_tokenizer::{self, BpeModel};
use crate::char_bpe_tokenizer::{self, CharBpeModel};
use crate::merge_laws;
use crate::merges;
use crate::pair_table::Pair;
use crate::pairs::{self, Word};
use crate::text::{self, CharClass};
use crate::word_freq;

verus! {

/// The words that byte-level training learns from are all words of all texts, in
/// lower case and in their order.
pub proof fn law_corpus_words_are_all_words(corpus: Seq<&str>)
    ensures
        bpe_tokenizer::corpus_words(corpus) == corpus.map_values(
            |t: &str|
                text::words(t@).map_values(|w: Seq<char>| bpe_tokenizer::lowercase(w)).filter(
                    |w: Seq<char>| w.len() > 0,
                ),
        ).flatten(),
    decreases corpus.len(),
{
    let f = |t: &str|
        text::words(t@).map_values(|w: Seq<char>| bpe_tokenizer::lowercase(w)).filter(
            |w: Seq<char>| w.len() > 0,
        );
    let all = corpus.map_values(f);
    if corpus.len() > 0 {
        let shorter = corpus.drop_last();
        let s = corpus.last()@;
        law_corpus_words_are_all_words(shorter);
        let lower = text::words(s).map_values(|w: Seq<char>| bpe_tokenizer::lowercase(w));
        lemma_kept_is_filter(lower);
        assert(lower =~= Seq::new(
            text::words(s).len(),
            |i: int| bpe_tokenizer::lowercase(text::words(s)[i]),
        ));
        assert(bpe_tokenizer::lower_words(s) == f(corpus.last()));
        assert(all =~= shorter.map_values(f).push(f(corpus.last())));
        shorter.map_values(f).lemma_flatten_push(f(corpus.last()));
    } else {
        assert(bpe_tokenizer::corpus_words(corpus) =~= all.flatten());
    }
}

proof fn lemma_kept_is_filter(list: Seq<Seq<char>>)
    ensures
        bpe_tokenizer::kept(list) == list.filter(|w: Seq<char>| w.len() > 0),
    decreases list.len(),
{
    reveal(Seq::filter);
    if list.len() > 0 {
        lemma_kept_is_filter(list.drop_last());
    } else {
        assert(bpe_tokenizer::kept(list) =~= list.filter(|w: Seq<char>| w.len() > 0));
    }
}

/// Words end at white space and at punctuation.
pub proof fn law_breaks_are_space_and_punctuation(c: char)
    ensures
        char_bpe_tokenizer::is_break(c) <==> text::white_space(c) || ".,;:!?。、！？「」『』（）"@.contains(
            c,
        ),
{
    reveal_strlit(".,;:!?。、！？「」『』（）");
    let p = ".,;:!?。、！？「」『』（）"@;
    assert(p.len() == 16);
    assert(p[0] == '.' && p[1] == ',' && p[2] == ';' && p[3] == ':' && p[4] == '!' && p[5] == '?'
        && p[6] == '。' && p[7] == '、' && p[8] == '！' && p[9] == '？' && p[10] == '「' && p[11] == '」'
        && p[12] == '『' && p[13] == '』' && p[14] == '（' && p[15] == '）');
}

/// A run goes on up to a break.
proof fn lemma_run_ends(s: Seq<char>)
    ensures
        char_bpe_tokenizer::run_length(s) <= s.len(),
        forall|i: int|
            0 <= i < char_bpe_tokenizer::run_length(s) ==> !char_bpe_tokenizer::is_break(
                #[trigger] s[i],
            ),
        char_bpe_tokenizer::run_length(s) < s.len() ==> char_bpe_tokenizer::is_break(
            s[char_bpe_tokenizer::run_length(s) as int],
        ),
    decreases s.len(),
{
    if s.len() > 0 && !char_bpe_tokenizer::is_break(s[0]) {
        let rest = s.skip(1);
        lemma_run_ends(rest);
        assert forall|i: int| 0 <= i < char_bpe_tokenizer::run_length(s) implies
            !char_bpe_tokenizer::is_break(#[trigger] s[i]) by {
            if i > 0 {
                assert(s[i] == rest[i - 1]);
            }
        }
    }
}

proof fn lemma_run_before_break(a: Seq<char>, c: char, b: Seq<char>)
    requires
        char_bpe_tokenizer::is_break(c),
    ensures
        char_bpe_tokenizer::run_length(a + seq![c] + b) == char_bpe_tokenizer::run_length(a),
    decreases a.len(),
{
    let s = a + seq![c] + b;
    if a.len() > 0 && !char_bpe_tokenizer::is_break(a[0]) {
        assert(s.skip(1) =~= a.skip(1) + seq![c] + b);
        lemma_run_before_break(a.skip(1), c, b);
    }
}

/// A break is a word of its own, and parts what stands before it from what stands
/// behind it.
pub proof fn law_a_break_is_a_word(a: Seq<char>, c: char, b: Seq<char>)
    requires
        char_bpe_tokenizer::is_break(c),
    ensures
        char_bpe_tokenizer::pretokens(a + seq![c] + b) == char_bpe_tokenizer::pretokens(a) + seq![
            seq![c],
        ] + char_bpe_tokenizer::pretokens(b),
    decreases a.len(),
{
    let s = a + seq![c] + b;
    let end = seq![seq![c]] + char_bpe_tokenizer::pretokens(b);
    if a.len() == 0 {
        assert(s.skip(1) =~= b);
        assert(s.take(1) =~= seq![c]);
        assert(char_bpe_tokenizer::pretokens(s) =~= char_bpe_tokenizer::pretokens(a) + seq![
            seq![c],
        ] + char_bpe_tokenizer::pretokens(b));
    } else {
        lemma_run_ends(a);
        lemma_run_before_break(a, c, b);
        let n = if char_bpe_tokenizer::is_break(a[0]) {
            1
        } else {
            char_bpe_tokenizer::run_length(a) as int
        };
        assert(s.take(n) =~= a.take(n));
        assert(s.skip(n) =~= a.skip(n) + seq![c] + b);
        law_a_break_is_a_word(a.skip(n), c, b);
        assert(char_bpe_tokenizer::pretokens(s) =~= char_bpe_tokenizer::pretokens(a) + seq![
            seq![c],
        ] + char_bpe_tokenizer::pretokens(b));
    }
}

/// A text without breaks is one word, unless it is empty.
pub proof fn law_a_run_is_one_word(s: Seq<char>)
    requires
        forall|i: int| 0 <= i < s.len() ==> !char_bpe_tokenizer::is_break(#[trigger] s[i]),
    ensures
        s.len() > 0 ==> char_bpe_tokenizer::pretokens(s) == seq![s],
        s.len() == 0 ==> char_bpe_tokenizer::pretokens(s).len() == 0,
{
    if s.len() > 0 {
        lemma_run_ends(s);
        let n = char_bpe_tokenizer::run_length(s) as int;
        assert(n == s.len());
        assert(s.take(n) =~= s);
        assert(char_bpe_tokenizer::pretokens(s.skip(n)).len() == 0);
        assert(char_bpe_tokenizer::pretokens(s) =~= seq![s]);
    }
}

/// Merging a pair joins it at its first place, and then in the rest; a word that does
/// not hold the pair stays as it is.
pub proof fn law_a_pair_is_merged_from_the_left(
    symbols: Seq<Seq<char>>,
    a: Seq<char>,
    b: Seq<char>,
    i: int,
)
    requires
        0 <= i,
        forall|j: int|
            0 <= j < i && j + 1 < symbols.len() ==> !(#[trigger] symbols[j] == a && symbols[j + 1]
                == b),
    ensures
        i + 1 < symbols.len() && symbols[i] == a && symbols[i + 1] == b ==> merges::merge_pair(
            symbols,
            a,
            b,
        ) == symbols.take(i) + seq![a + b] + merges::merge_pair(symbols.skip(i + 2), a, b),
        i >= symbols.len() ==> merges::merge_pair(symbols, a, b) == symbols,
    decreases symbols.len(),
{
    let all = merges::merge_pair(symbols, a, b);
    if symbols.len() == 0 {
        assert(all =~= symbols);
    } else if i == 0 {
        if 1 < symbols.len() && symbols[0] == a && symbols[1] == b {
            assert(all =~= symbols.take(0) + seq![a + b] + merges::merge_pair(
                symbols.skip(2),
                a,
                b,
            ));
        }
    } else {
        assert(!(symbols.len() >= 2 && symbols[0] == a && symbols[1] == b));
        let rest = symbols.skip(1);
        assert forall|j: int| 0 <= j < i - 1 && j + 1 < rest.len() implies !(#[trigger] rest[j] == a
            && rest[j + 1] == b) by {
            assert(rest[j] == symbols[j + 1] && rest[j + 1] == symbols[j + 2]);
        }
        law_a_pair_is_merged_from_the_left(rest, a, b, i - 1);
        if i + 1 < symbols.len() && symbols[i] == a && symbols[i + 1] == b {
            assert(rest.skip(i + 1) =~= symbols.skip(i + 2));
            assert(all =~= symbols.take(i) + seq![a + b] + merges::merge_pair(
                symbols.skip(i + 2),
                a,
                b,
            ));
        }
        if i >= symbols.len() {
            assert(all =~= symbols);
        }
    }
}

/// A run of merges adds the joined pairs behind the vocabulary, in the order in which
/// they were learned, but for those that are there already.
pub proof fn law_tokens_come_in_the_order_of_merges(
    before: Seq<Seq<char>>,
    run: Seq<Pair>,
    k: int,
)
    requires
        0 <= k < run.len(),
    ensures
        ({
            let had = merges::tokens_after(before, run.take(k));
            let has = merges::tokens_after(before, run.take(k + 1));
            let t = run[k].0 + run[k].1;
            &&& had.contains(t) ==> has == had
            &&& !had.contains(t) ==> has == had.push(t)
            &&& merges::tokens_after(before, Seq::empty()) == before
            &&& run.take(run.len() as int) == run
        }),
{
    assert(run.take(k + 1).drop_last() =~= run.take(k));
    assert(run.take(run.len() as int) =~= run);
}

/// Texts are registered in the order of their first occurrence: each is put behind
/// what is there unless it is there already.
pub proof fn law_first_occurrences_are_registered(
    tokens: Seq<Seq<char>>,
    list: Seq<Seq<char>>,
    i: int,
    j: int,
)
    requires
        0 <= i < j < list.len(),
        forall|k: int| 0 <= k < i ==> #[trigger] list[k] != list[i],
        forall|k: int| 0 <= k < j ==> #[trigger] list[k] != list[j],
        !tokens.contains(list[i]),
        !tokens.contains(list[j]),
    ensures
        ({
            let all = merges::registered_all(tokens, list);
            exists|a: int, b: int|
                tokens.len() <= a < b < all.len() && #[trigger] all[a] == list[i]
                    && #[trigger] all[b] == list[j]
        }),
{
    let all = merges::registered_all(tokens, list);
    let front = merges::registered_all(tokens, list.take(j));
    lemma_registered_front(tokens, list, j);
    merges::lemma_registered_all(tokens, list.take(j));
    assert(list.take(j)[i] == list[i]);
    assert(front.contains(list[i]));
    let a = choose|a: int| 0 <= a < front.len() && front[a] == list[i];
    assert(all[a] == front[a]);
    if a < tokens.len() {
        assert(tokens[a] == front[a]);
    }
    lemma_not_registered(tokens, list.take(j), list[j]);
    assert(list.take(j + 1).drop_last() =~= list.take(j));
    lemma_registered_front(tokens, list, j + 1);
    let longer = merges::registered_all(tokens, list.take(j + 1));
    assert(longer == front.push(list[j]));
    let b = front.len() as int;
    assert(all[b] == longer[b]);
    assert(tokens.len() <= a < b < all.len() && all[a] == list[i] && all[b] == list[j]);
}

/// What the first texts register stays in front.
proof fn lemma_registered_front(tokens: Seq<Seq<char>>, list: Seq<Seq<char>>, n: int)
    requires
        0 <= n <= list.len(),
    ensures
        merges::registered_all(tokens, list.take(n)).is_prefix_of(
            merges::registered_all(tokens, list),
        ),
    decreases list.len() - n,
{
    let front = merges::registered_all(tokens, list.take(n));
    let all = merges::registered_all(tokens, list);
    if n == list.len() {
        assert(list.take(n) =~= list);
        assert(front =~= all.take(front.len() as int));
    } else {
        lemma_registered_front(tokens, list, n + 1);
        let next = merges::registered_all(tokens, list.take(n + 1));
        assert(list.take(n + 1).drop_last() =~= list.take(n));
        merges::lemma_registered(front, list[n]);
        assert(next =~= all.take(next.len() as int));
        assert(front =~= next.take(front.len() as int));
        assert(front =~= all.take(front.len() as int));
    }
}

/// What is neither there nor listed is not registered.
proof fn lemma_not_registered(tokens: Seq<Seq<char>>, list: Seq<Seq<char>>, t: Seq<char>)
    requires
        !tokens.contains(t),
        forall|k: int| 0 <= k < list.len() ==> #[trigger] list[k] != t,
    ensures
        !merges::registered_all(tokens, list).contains(t),
    decreases list.len(),
{
    if list.len() > 0 {
        let shorter = list.drop_last();
        assert forall|k: int| 0 <= k < shorter.len() implies #[trigger] shorter[k] != t by {
            assert(shorter[k] == list[k]);
        }
        lemma_not_registered(tokens, shorter, t);
        let before = merges::registered_all(tokens, shorter);
        assert(list[list.len() - 1] != t);
        if before.push(list.last()).contains(t) {
            let k = choose|k: int|
                0 <= k < before.len() + 1 && before.push(list.last())[k] == t;
            assert(before[k] == t);
        }
    }
}

/// Nothing is registered but what is listed.
pub proof fn law_only_listed_texts_are_registered(
    tokens: Seq<Seq<char>>,
    list: Seq<Seq<char>>,
    t: Seq<char>,
)
    ensures
        merges::registered_all(tokens, list).contains(t) <==> tokens.contains(t) || list.contains(
            t,
        ),
{
    merges::lemma_registered_all(tokens, list);
    if list.contains(t) {
        let k = choose|k: int| 0 <= k < list.len() && list[k] == t;
        assert(merges::registered_all(tokens, list).contains(list[k]));
    } else if !tokens.contains(t) {
        assert forall|k: int| 0 <= k < list.len() implies #[trigger] list[k] != t by {
            assert(list.contains(list[k]));
        }
        lemma_not_registered(tokens, list, t);
    }
}

/// A tokenizer on characters starts from the reserved markers and the characters of
/// both texts, and nothing else.
pub proof fn law_vocabularies_start_with_characters(
    coverage: Seq<char>,
    merge: Seq<char>,
    t: Seq<char>,
)
    ensures
        char_bpe_tokenizer::initial_tokens(coverage, merge).contains(t) <==> {
            ||| t == "<PAD>"@
            ||| t == "<UNK>"@
            ||| t == "<BOS>"@
            ||| t == "<EOS>"@
            ||| t.len() == 1 && (coverage.contains(t[0]) || merge.contains(t[0]))
        },
{
    let first = char_bpe_tokenizer::reserved();
    let covered = merges::registered_all(first, text::singletons(coverage));
    law_only_listed_texts_are_registered(first, text::singletons(coverage), t);
    law_only_listed_texts_are_registered(covered, text::singletons(merge), t);
    lemma_singletons_hold(coverage, t);
    lemma_singletons_hold(merge, t);
    assert(first[0] == "<PAD>"@ && first[1] == "<UNK>"@ && first[2] == "<BOS>"@ && first[3]
        == "<EOS>"@);
}

proof fn lemma_singletons_hold(s: Seq<char>, t: Seq<char>)
    ensures
        text::singletons(s).contains(t) <==> t.len() == 1 && s.contains(t[0]),
{
    if text::singletons(s).contains(t) {
        let i = choose|i: int| 0 <= i < s.len() && text::singletons(s)[i] == t;
        assert(t[0] == s[i]);
    }
    if t.len() == 1 && s.contains(t[0]) {
        let i = choose|i: int| 0 <= i < s.len() && s[i] == t[0];
        assert(text::singletons(s)[i] =~= t);
    }
}

/// Symbols become the ids of their tokens; what is no token becomes the unknown id.
pub proof fn law_ids_name_their_tokens(m: CharBpeModel, symbols: Seq<Seq<char>>, i: int)
    requires
        m.tokens.len() <= usize::MAX,
        0 <= i < symbols.len(),
    ensures
        m.ids_of(symbols).len() == symbols.len(),
        m.tokens.contains(symbols[i]) ==> m.ids_of(symbols)[i] < m.tokens.len()
            && m.tokens[m.ids_of(symbols)[i] as int] == symbols[i],
        !m.tokens.contains(symbols[i]) ==> m.ids_of(symbols)[i] == m.unk_id,
{
    merges::lemma_last_index(m.tokens, symbols[i]);
}

/// A text in which no marker is recognised is encoded word by word, each word with
/// the merges applied to its characters.
pub proof fn law_segments_are_encoded_word_by_word(m: CharBpeModel, s: Seq<char>)
    ensures
        m.encode_segment(s) == char_bpe_tokenizer::pretokens(s).map_values(
            |w: Seq<char>|
                m.ids_of(merges::apply_merges(Seq::new(w.len(), |i: int| seq![w[i]]), m.merges)),
        ).flatten(),
{
    lemma_words_one_by_one(m, char_bpe_tokenizer::pretokens(s));
}

proof fn lemma_words_one_by_one(m: CharBpeModel, words: Seq<Seq<char>>)
    ensures
        m.encode_words(words) == words.map_values(
            |w: Seq<char>|
                m.ids_of(merges::apply_merges(Seq::new(w.len(), |i: int| seq![w[i]]), m.merges)),
        ).flatten(),
    decreases words.len(),
{
    let f = |w: Seq<char>|
        m.ids_of(merges::apply_merges(Seq::new(w.len(), |i: int| seq![w[i]]), m.merges));
    let all = words.map_values(f);
    if words.len() > 0 {
        let shorter = words.drop_last();
        let w = words.last();
        lemma_words_one_by_one(m, shorter);
        assert(Seq::new(w.len(), |i: int| seq![w[i]]) =~= text::singletons(w));
        assert(all =~= shorter.map_values(f).push(f(w)));
        shorter.map_values(f).lemma_flatten_push(f(w));
    } else {
        assert(m.encode_words(words) =~= all.flatten());
    }
}

/// A text without a whole marker is one segment. What reads like a marker and is no
/// special token is plain text: the segment ends behind its `<`.
pub proof fn law_unknown_markers_are_plain_text(
    m: CharBpeModel,
    before: Seq<char>,
    inner: Seq<char>,
    after: Seq<char>,
)
    requires
        !before.contains('<'),
        !inner.contains('>'),
        m.special_tokens.len() > 0,
        ({
            let marker = seq!['<'] + inner + seq!['>'];
            !(m.special_tokens.contains(marker) && m.tokens.contains(marker))
        }),
    ensures
        m.encode_inner(before) == m.encode_segment(before),
        m.encode_inner(before + seq!['<'] + inner + seq!['>'] + after) == m.encode_segment(
            before.push('<'),
        ) + m.encode_inner(inner + seq!['>'] + after),
        m.encode_inner(before + seq!['<'] + inner) == m.encode_segment(
            before + seq!['<'] + inner,
        ),
{
    let n = before.len() as int;
    let s = before + seq!['<'] + inner + seq!['>'] + after;
    let marker = seq!['<'] + inner + seq!['>'];
    assert forall|i: int| 0 <= i < n implies before[i] != '<' by {
        assert(before.contains(before[i]));
    }
    assert forall|i: int| 0 <= i < inner.len() implies inner[i] != '>' by {
        assert(inner.contains(inner[i]));
    }
    text::lemma_find_char_unique(before, '<', n);
    assert forall|i: int| 0 <= i < n implies s[i] != '<' by {
        assert(s[i] == before[i]);
    }
    assert(s[n] == '<');
    text::lemma_find_char_unique(s, '<', n);
    let tail = s.skip(n);
    assert(tail =~= marker + after);
    let k = inner.len() + 1;
    assert forall|i: int| 0 <= i < k implies tail[i] != '>' by {
        if i > 0 {
            assert(tail[i] == inner[i - 1]);
        }
    }
    assert(tail[k as int] == '>');
    text::lemma_find_char_unique(tail, '>', k as int);
    assert(s.subrange(n, n + k + 1) =~= marker);
    assert(s.take(n + 1) =~= before.push('<'));
    assert(s.skip(n + 1) =~= inner + seq!['>'] + after);
    let open = before + seq!['<'] + inner;
    assert forall|i: int| 0 <= i < n implies open[i] != '<' by {
        assert(open[i] == before[i]);
    }
    assert(open[n] == '<');
    text::lemma_find_char_unique(open, '<', n);
    let rest = open.skip(n);
    assert(rest =~= seq!['<'] + inner);
    assert forall|i: int| 0 <= i < rest.len() implies rest[i] != '>' by {
        if i > 0 {
            assert(rest[i] == inner[i - 1]);
        }
    }
    text::lemma_find_char_unique(rest, '>', rest.len() as int);
}

/// Without special tokens a text is encoded as it stands.
pub proof fn law_without_special_tokens_all_is_text(m: CharBpeModel, s: Seq<char>)
    requires
        m.special_tokens.len() == 0,
    ensures
        m.encode_inner(s) == m.encode_segment(s),
{
}

/// A prompt is the text behind the mark of a beginning.
pub proof fn law_prompts_start_with_a_mark(m: CharBpeModel, s: Seq<char>)
    ensures
        m.encode_prompt(s).len() == m.encode_inner(s).len() + 1,
        m.encode_prompt(s)[0] == m.bos_id(),
        m.encode_prompt(s).skip(1) == m.encode_inner(s),
{
    assert(m.encode_prompt(s).skip(1) =~= m.encode_inner(s));
}

/// Decoding joins the tokens of the ids as they are. Ids that name no token and the
/// four reserved markers give nothing.
pub proof fn law_decoding_joins_tokens(m: CharBpeModel, ids: Seq<usize>)
    ensures
        m.decode(ids) == ids.filter(
            |id: usize|
                id < m.tokens.len() && m.tokens[id as int] != "<PAD>"@ && m.tokens[id as int]
                    != "<UNK>"@ && m.tokens[id as int] != "<BOS>"@ && m.tokens[id as int]
                    != "<EOS>"@,
        ).map_values(|id: usize| m.tokens[id as int]).flatten(),
    decreases ids.len(),
{
    reveal(Seq::filter);
    let shown = |id: usize|
        id < m.tokens.len() && m.tokens[id as int] != "<PAD>"@ && m.tokens[id as int] != "<UNK>"@
            && m.tokens[id as int] != "<BOS>"@ && m.tokens[id as int] != "<EOS>"@;
    let f = |id: usize| m.tokens[id as int];
    let all = ids.filter(shown).map_values(f);
    if ids.len() > 0 {
        let shorter = ids.drop_last();
        let id = ids.last();
        law_decoding_joins_tokens(m, shorter);
        let r = char_bpe_tokenizer::reserved();
        assert(r[0] == "<PAD>"@ && r[1] == "<UNK>"@ && r[2] == "<BOS>"@ && r[3] == "<EOS>"@);
        if shown(id) {
            let front = shorter.filter(shown).map_values(f);
            assert(all =~= front.push(m.tokens[id as int]));
            front.lemma_flatten_push(m.tokens[id as int]);
        } else {
            assert(m.text_of(id) =~= Seq::empty());
            assert(m.decode(ids) =~= m.decode(shorter));
        }
    } else {
        assert(m.decode(ids) =~= all.flatten());
    }
}

/// A byte-level tokenizer encodes a text word by word, without the ASCII punctuation
/// at their ends, between the marks of a beginning and an end; a prompt has no end.
pub proof fn law_bpe_texts_are_encoded_word_by_word(m: BpeModel, s: Seq<char>)
    ensures
        ({
            let plain = text::words(s).map_values(
                |w: Seq<char>| text::trim(w, CharClass::AsciiPunctuation),
            ).filter(|w: Seq<char>| w.len() > 0);
            let ids = plain.map_values(|w: Seq<char>| m.ids_of(m.encode_word(w))).flatten();
            &&& m.encode(s) == seq![m.bos_id()] + ids + seq![m.eos_id()]
            &&& m.encode_prompt(s) == seq![m.bos_id()] + ids
        }),
{
    lemma_bpe_words_one_by_one(m, text::words(s));
}

proof fn lemma_bpe_words_one_by_one(m: BpeModel, words: Seq<Seq<char>>)
    ensures
        m.encode_words(words) == words.map_values(
            |w: Seq<char>| text::trim(w, CharClass::AsciiPunctuation),
        ).filter(|w: Seq<char>| w.len() > 0).map_values(
            |w: Seq<char>| m.ids_of(m.encode_word(w)),
        ).flatten(),
    decreases words.len(),
{
    reveal(Seq::filter);
    let bare = |w: Seq<char>| text::trim(w, CharClass::AsciiPunctuation);
    let full = |w: Seq<char>| w.len() > 0;
    let ids = |w: Seq<char>| m.ids_of(m.encode_word(w));
    let plain = words.map_values(bare);
    let all = plain.filter(full).map_values(ids);
    if words.len() > 0 {
        let shorter = words.drop_last();
        let w = bare(words.last());
        lemma_bpe_words_one_by_one(m, shorter);
        assert(plain.drop_last() =~= shorter.map_values(bare));
        assert(plain.last() == w);
        let front = plain.drop_last().filter(full).map_values(ids);
        if w.len() > 0 {
            assert(all =~= front.push(ids(w)));
            front.lemma_flatten_push(ids(w));
        } else {
            assert(all == front);
            assert(m.encode_words(words) =~= m.encode_words(shorter));
        }
    } else {
        assert(m.encode_words(words) =~= all.flatten());
    }
}

/// The symbols of a word are those of its bytes: `b` and three digits that say the
/// byte, the last with the mark of the end of a word.
pub proof fn law_words_are_bytes(w: Seq<char>, i: int)
    requires
        0 <= i < vstd::utf8::encode_utf8(w).len(),
    ensures
        ({
            let bytes = vstd::utf8::encode_utf8(w);
            let symbols = bpe_tokenizer::word_symbols(w);
            let last = i == bytes.len() - 1;
            &&& symbols.len() == bytes.len()
            &&& symbols[i].len() == (if last {
                8nat
            } else {
                4
            })
            &&& symbols[i][0] == 'b'
            &&& 100 * (symbols[i][1] as int - '0' as int) + 10 * (symbols[i][2] as int - '0' as int)
                + (symbols[i][3] as int - '0' as int) == bytes[i]
            &&& last ==> symbols[i].skip(4) == "</w>"@
        }),
{
    reveal_strlit("</w>");
    let b = vstd::utf8::encode_utf8(w)[i] as int;
    let symbol = bpe_tokenizer::word_symbols(w)[i];
    let plain = bpe_tokenizer::byte_text(b as u8);
    assert(symbol[0] == plain[0] && symbol[1] == plain[1] && symbol[2] == plain[2] && symbol[3]
        == plain[3]);
    lemma_digit_value(b / 100);
    lemma_digit_value((b / 10) % 10);
    lemma_digit_value(b % 10);
    assert(symbol[1] == text::digit(b / 100));
    assert(symbol[2] == text::digit((b / 10) % 10));
    assert(symbol[3] == text::digit(b % 10));
    assert(100 * (b / 100) + 10 * ((b / 10) % 10) + b % 10 == b);
    if i == vstd::utf8::encode_utf8(w).len() - 1 {
        assert(symbol.skip(4) =~= "</w>"@);
    }
}

proof fn lemma_digit_value(n: int)
    requires
        0 <= n < 10,
    ensures
        text::digit(n) as int - '0' as int == n,
{
}

/// A word is encoded with all merges that apply: no neighbours are left that were
/// ever merged.
pub proof fn law_bpe_words_are_merged_to_the_end(m: BpeModel, w: Seq<char>, i: int)
    requires
        0 <= i < m.encode_word(w).len() - 1,
    ensures
        !m.merges.contains((m.encode_word(w)[i], m.encode_word(w)[i + 1])),
{
    merges::law_merging_leaves_no_merged_pair(bpe_tokenizer::word_symbols(w), m.merges);
    assert(pairs::pair_at(m.encode_word(w), i) == (m.encode_word(w)[i], m.encode_word(w)[i + 1]));
}

/// Symbols become the ids of their tokens; what is no token becomes the unknown id.
pub proof fn law_bpe_ids_name_their_tokens(m: BpeModel, symbols: Seq<Seq<char>>, i: int)
    requires
        m.tokens.len() <= usize::MAX,
        0 <= i < symbols.len(),
    ensures
        m.ids_of(symbols).len() == symbols.len(),
        m.tokens.contains(symbols[i]) ==> m.ids_of(symbols)[i] < m.tokens.len()
            && m.tokens[m.ids_of(symbols)[i] as int] == symbols[i],
        !m.tokens.contains(symbols[i]) ==> m.ids_of(symbols)[i] == m.unk_id,
{
    merges::lemma_last_index(m.tokens, symbols[i]);
}

/// Reserved markers, and ids that name no token, change nothing of what is decoded.
pub proof fn law_bpe_decoding_skips_markers(m: BpeModel, a: Seq<usize>, id: usize, b: Seq<usize>)
    requires
        id >= m.tokens.len() || m.tokens[id as int] == "<PAD>"@ || m.tokens[id as int] == "<UNK>"@
            || m.tokens[id as int] == "<BOS>"@ || m.tokens[id as int] == "<EOS>"@,
    ensures
        m.decode(a + seq![id] + b) == m.decode(a + b),
{
    lemma_skipped(m, a, id, b);
}

proof fn lemma_skipped(m: BpeModel, a: Seq<usize>, id: usize, b: Seq<usize>)
    requires
        id >= m.tokens.len() || m.tokens[id as int] == "<PAD>"@ || m.tokens[id as int] == "<UNK>"@
            || m.tokens[id as int] == "<BOS>"@ || m.tokens[id as int] == "<EOS>"@,
    ensures
        m.decode_all(a + seq![id] + b) == m.decode_all(a + b),
    decreases b.len(),
{
    if b.len() == 0 {
        assert(a + seq![id] + b =~= a.push(id));
        assert(a.push(id).drop_last() =~= a);
        assert(a + b =~= a);
    } else {
        lemma_skipped(m, a, id, b.drop_last());
        assert((a + seq![id] + b).drop_last() =~= a + seq![id] + b.drop_last());
        assert((a + b).drop_last() =~= a + b.drop_last());
    }
}

/// A tokenizer that learned further merges from a text has a token for every symbol that
/// it started with there.
pub proof fn law_extending_knows_all_symbols(
    m: CharBpeModel,
    n: CharBpeModel,
    s: Seq<char>,
    size: nat,
    w: Seq<char>,
    j: int,
)
    requires
        m.extends_to(n, s, size),
        m.tokens.len() < size,
        char_bpe_tokenizer::pretokens(s).contains(w),
        0 <= j < m.encode_word(w).len(),
    ensures
        n.tokens.contains(m.encode_word(w)[j]),
{
    let run = choose|run: Seq<Pair>| m.extends_by(n, s, size, run);
    let list = char_bpe_tokenizer::pretokens(s);
    let words = m.subwords(s);
    word_freq::lemma_distinct(list);
    assert(word_freq::distinct(list).contains(w));
    let i = choose|i: int|
        0 <= i < word_freq::distinct(list).len() && word_freq::distinct(list)[i] == w;
    assert(words[i].symbols == m.encode_word(w));
    lemma_symbols_are_known(m, words, i, j);
    merges::lemma_tokens_after(m.with_symbols(words), run);
}

/// Every symbol of every word is registered.
proof fn lemma_symbols_are_known(m: CharBpeModel, words: Seq<Word>, i: int, j: int)
    requires
        0 <= i < words.len(),
        0 <= j < words[i].symbols.len(),
    ensures
        m.with_symbols(words).contains(words[i].symbols[j]),
    decreases words.len(),
{
    let shorter = words.drop_last();
    let before = m.with_symbols(shorter);
    merges::lemma_registered_all(before, words.last().symbols);
    if i < shorter.len() {
        lemma_symbols_are_known(m, shorter, i, j);
    }
}

/// Where learning from a text ends with fewer tokens than asked for, nothing is left to
/// merge: every word of the text is one symbol.
pub proof fn law_extending_goes_on_to_the_end(
    m: CharBpeModel,
    n: CharBpeModel,
    s: Seq<char>,
    size: nat,
    run: Seq<Pair>,
    w: Seq<char>,
)
    requires
        m.extends_by(n, s, size, run),
        n.tokens.len() < size,
        char_bpe_tokenizer::pretokens(s).contains(w),
    ensures
        merge_laws::merged_in_turn(m.encode_word(w), run).len() <= 1,
{
    let list = char_bpe_tokenizer::pretokens(s);
    let words = m.subwords(s);
    let after = merges::words_after(words, run);
    word_freq::lemma_distinct(list);
    assert(word_freq::distinct(list).contains(w));
    let i = choose|i: int|
        0 <= i < word_freq::distinct(list).len() && word_freq::distinct(list)[i] == w;
    assert(words[i].symbols == m.encode_word(w));
    merge_laws::lemma_words_in_turn(words, run);
    let symbols = after[i].symbols;
    if symbols.len() > 1 {
        let p = pairs::pair_at(symbols, 0);
        assert(pairs::has_pair(symbols, p));
        assert(pairs::occurs(after, p));
    }
}

} // verus!
