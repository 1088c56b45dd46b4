//! A tokenizer with one id per character.

use std::collections::HashMap;
use vstd::prelude::*;

use crate::checkpoint::{Checkpointable, Record, WeightMap, Weights};
use crate::error::DataError;
use crate::merges;
use crate::text::{self, code_of, string_of_char};
use crate::tokenizer::{Tokenizer, TokenizerKind};

verus! {

/// What a `CharTokenizer` stands for: the character of each id. Id 0 is text
/// that no other id covers, and its character does not matter.
#[verifier::ext_equal]
pub struct CharModel {
    pub chars: Seq<char>,
}

impl CharModel {
    /// The characters from id 1 on.
    pub open spec fn letters(self) -> Seq<char> {
        if self.chars.len() == 0 {
            Seq::empty()
        } else {
            self.chars.skip(1)
        }
    }

    /// The id of a character, 0 where there is none.
    pub open spec fn id_of(self, c: char) -> usize {
        match merges::last_index(self.letters(), c) {
            Some(i) => (i + 1) as usize,
            None => 0,
        }
    }

    pub open spec fn encode(self, s: Seq<char>) -> Seq<usize> {
        Seq::new(s.len(), |i: int| self.id_of(s[i]))
    }

    /// The characters of all ids but 0 and unknown ones.
    pub open spec fn decode(self, ids: Seq<usize>) -> Seq<char>
        decreases ids.len(),
    {
        if ids.len() == 0 {
            Seq::empty()
        } else if ids.last() != 0 && ids.last() < self.chars.len() {
            self.decode(ids.drop_last()).push(self.chars[ids.last() as int])
        } else {
            self.decode(ids.drop_last())
        }
    }

    /// What a checkpoint of the tokenizer holds: one text for each id.
    pub open spec fn weights(self) -> Weights {
        Weights::empty().with(Record::Scalar("kind"@, TokenizerKind::Char.code())).with(
            Record::Strings("id_to_char"@, Seq::new(self.chars.len(), |i: int| cell(self.chars[i]))),
        )
    }

    /// The tokenizer that a checkpoint holds.
    pub open spec fn of_weights(w: Weights) -> Self {
        CharModel {
            chars: Seq::new(
                w.strings["id_to_char"@].len(),
                |i: int|
                    if i == 0 {
                        '\0'
                    } else {
                        w.strings["id_to_char"@][i][0]
                    },
            ),
        }
    }

    /// The checkpoint holds a tokenizer: each id from 1 on has one character.
    pub open spec fn loadable(w: Weights) -> bool {
        &&& w.strings.contains_key("id_to_char"@)
        &&& w.strings["id_to_char"@].len() > 0
        &&& forall|i: int|
            1 <= i < w.strings["id_to_char"@].len() ==> (
            #[trigger] w.strings["id_to_char"@][i]).len() == 1
    }

    /// The error on the first thing that cannot be used.
    pub open spec fn load_error(w: Weights, e: DataError) -> bool {
        if !w.strings.contains_key("id_to_char"@) {
            e.is_missing("id_to_char"@)
        } else {
            let list = w.strings["id_to_char"@];
            match e {
                DataError::NoCharacters => list.len() == 0,
                DataError::EmptyCharacter(i) => first_misfit(list, i as int) && list[i as int].len()
                    == 0,
                DataError::LongCharacter(i) => first_misfit(list, i as int) && list[i as int].len()
                    > 1,
                _ => false,
            }
        }
    }
}

/// `i` is the first id from 1 on without exactly one character.
pub open spec fn first_misfit(list: Seq<Seq<char>>, i: int) -> bool {
    &&& 1 <= i < list.len()
    &&& list[i].len() != 1
    &&& forall|j: int| 1 <= j < i ==> (#[trigger] list[j]).len() == 1
}

/// How a character is stored: NUL as an empty text.
pub open spec fn cell(c: char) -> Seq<char> {
    if c == '\0' {
        Seq::empty()
    } else {
        seq![c]
    }
}

/// The characters of `s`, each once, in the order of their code points.
pub open spec fn lists_chars(chars: Seq<char>, s: Seq<char>) -> bool {
    &&& forall|i: int, j: int|
        0 <= i < j < chars.len() ==> text::code(#[trigger] chars[i]) < text::code(#[trigger] chars[j])
    &&& forall|c: char| #[trigger] chars.contains(c) <==> s.contains(c)
}

/// `index` finds every character of `letters` under its id.
pub open spec fn indexes_chars(index: Map<u32, usize>, letters: Seq<char>) -> bool {
    forall|c: char|
        #![trigger index.contains_key(text::code(c))]
        match merges::last_index(letters, c) {
            Some(i) => index.contains_key(text::code(c)) && index[text::code(c)] == i + 1,
            None => !index.contains_key(text::code(c)),
        }
}

/// A tokenizer with one id per character. Id 0 stands for all others.
pub struct CharTokenizer {
    pub id_to_char: Vec<char>,
    pub char_to_id: HashMap<u32, usize>,
}

impl View for CharTokenizer {
    type V = CharModel;

    open spec fn view(&self) -> CharModel {
        CharModel { chars: self.id_to_char@ }
    }
}

/// Finds every character from id 1 on under its id.
fn index_chars(chars: &Vec<char>) -> (r: HashMap<u32, usize>)
    ensures
        indexes_chars(r@, (CharModel { chars: chars@ }).letters()),
{
    broadcast use vstd::std_specs::hash::group_hash_axioms;

    let ghost letters = (CharModel { chars: chars@ }).letters();
    let mut r: HashMap<u32, usize> = HashMap::new();
    let n: usize = chars.len();
    if n == 0 {
        return r;
    }
    let mut i: usize = 1;
    assert(letters.take(0) =~= Seq::empty());
    while i < n
        invariant
            1 <= i <= n == chars@.len(),
            letters == chars@.skip(1),
            indexes_chars(r@, letters.take(i - 1)),
        decreases n - i,
    {
        broadcast use vstd::std_specs::hash::group_hash_axioms;

        let c: char = chars[i];
        let ghost before = r@;
        r.insert(code_of(c), i);
        i += 1;
        proof {
            let next = letters.take(i - 1);
            assert(next.drop_last() =~= letters.take(i - 2));
            assert forall|d: char| #![trigger r@.contains_key(text::code(d))]
                match merges::last_index(next, d) {
                    Some(k) => r@.contains_key(text::code(d)) && r@[text::code(d)] == k + 1,
                    None => !r@.contains_key(text::code(d)),
                } by {
                assert(before.contains_key(text::code(d)) == merges::last_index(
                    letters.take(i - 2),
                    d,
                ) is Some);
                text::lemma_code_injective(c, d);
            }
        }
    }
    assert(letters.take(n - 1) =~= letters);
    r
}

/// The characters of `s`, each once, in order.
fn sorted_chars(s: &str) -> (r: Vec<char>)
    ensures
        lists_chars(r@, s@),
{
    let mut r: Vec<char> = Vec::new();
    for c in it: s.chars()
        invariant
            it.seq() == s@,
            lists_chars(r@, s@.take(it.index() as int)),
    {
        let ghost seen = s@.take(it.index() as int);
        let ghost next = s@.take(it.index() + 1);
        let ghost before = r@;
        let mut low: usize = 0;
        let mut high: usize = r.len();
        while low < high
            invariant
                low <= high <= r@.len(),
                r@ == before,
                lists_chars(r@, seen),
                forall|i: int| 0 <= i < low ==> text::code(#[trigger] r@[i]) < text::code(c),
                forall|i: int| high <= i < r@.len() ==> text::code(c) <= text::code(#[trigger] r@[i]),
            decreases high - low,
        {
            let middle: usize = low + (high - low) / 2;
            if code_of(r[middle]) < code_of(c) {
                low = middle + 1;
            } else {
                high = middle;
            }
        }
        proof {
            assert forall|d: char| next.contains(d) <==> seen.contains(d) || d == c by {
                assert(next[it.index() as int] == c);
                if seen.contains(d) {
                    let k = choose|k: int| 0 <= k < seen.len() && seen[k] == d;
                    assert(next[k] == d);
                }
                if next.contains(d) && d != c {
                    let k = choose|k: int| 0 <= k < next.len() && next[k] == d;
                    assert(seen[k] == d);
                }
            }
        }
        if low < r.len() && r[low] == c {
            assert(before.contains(c));
        } else {
            r.insert(low, c);
            proof {
                let after = r@;
                if low < before.len() {
                    text::lemma_code_injective(c, before[low as int]);
                }
                assert forall|i: int, j: int| 0 <= i < j < after.len() implies text::code(#[trigger] after[i]) < text::code(#[trigger] after[j]) by {
                    let i0 = if i < low {
                        i
                    } else {
                        i - 1
                    };
                    let j0 = if j < low {
                        j
                    } else {
                        j - 1
                    };
                    if i != low {
                        assert(after[i] == before[i0]);
                    }
                    if j != low {
                        assert(after[j] == before[j0]);
                    }
                    if i == low {
                        assert(text::code(before[j0]) >= text::code(before[low as int]));
                    }
                }
                assert forall|d: char| #[trigger] after.contains(d) <==> before.contains(d) || d
                    == c by {
                    assert(after[low as int] == c);
                    if before.contains(d) {
                        let k = choose|k: int| 0 <= k < before.len() && before[k] == d;
                        if k < low {
                            assert(after[k] == d);
                        } else {
                            assert(after[k + 1] == d);
                        }
                    }
                    if after.contains(d) && d != c {
                        let k = choose|k: int| 0 <= k < after.len() && after[k] == d;
                        if k < low {
                            assert(before[k] == d);
                        } else {
                            assert(before[k - 1] == d);
                        }
                    }
                }
            }
        }
    }
    assert(s@.take(s@.len() as int) =~= s@);
    r
}

impl CharTokenizer {
    pub closed spec fn wf(&self) -> bool {
        indexes_chars(self.char_to_id@, self@.letters())
    }

    /// A tokenizer for the characters of `text`.
    pub fn train(text: &str) -> (r: Self)
        ensures
            r.wf(),
            r@.chars.len() > 0,
            r@.chars[0] == '\0',
            lists_chars(r@.letters(), text@),
    {
        let mut chars: Vec<char> = sorted_chars(text);
        let mut id_to_char: Vec<char> = Vec::new();
        id_to_char.push('\0');
        let ghost letters = chars@;
        id_to_char.append(&mut chars);
        assert(id_to_char@.skip(1) =~= letters);
        let char_to_id: HashMap<u32, usize> = index_chars(&id_to_char);
        CharTokenizer { id_to_char, char_to_id }
    }

    /// A tokenizer without any id.
    pub fn empty() -> (r: Self)
        ensures
            r.wf(),
            r@ == (CharModel { chars: Seq::empty() }),
    {
        let id_to_char: Vec<char> = Vec::new();
        let char_to_id: HashMap<u32, usize> = index_chars(&id_to_char);
        let r = CharTokenizer { id_to_char, char_to_id };
        assert(r@.chars =~= Seq::empty());
        r
    }

    /// The id of text that no other id covers.
    pub fn unk_id(&self) -> (r: usize)
        ensures
            r == 0,
    {
        0
    }

    /// Encodes a text, one id per character.
    pub fn encode_chars(&self, text: &str) -> (r: Vec<usize>)
        requires
            self.wf(),
        ensures
            r@ == self@.encode(text@),
    {
        broadcast use vstd::std_specs::hash::group_hash_axioms;

        let unk: usize = self.unk_id();
        let mut r: Vec<usize> = Vec::new();
        for c in it: text.chars()
            invariant
                it.seq() == text@,
                self.wf(),
                unk == 0,
                r@ == self@.encode(text@).take(it.index() as int),
        {
            broadcast use vstd::std_specs::hash::group_hash_axioms;

            let key: u32 = code_of(c);
            let id: usize = match self.char_to_id.get(&key) {
                Some(id) => *id,
                None => unk,
            };
            assert(self.char_to_id@.contains_key(text::code(c)) == merges::last_index(
                self@.letters(),
                c,
            ) is Some);
            r.push(id);
            assert(r@ =~= self@.encode(text@).take(it.index() + 1));
        }
        assert(r@ =~= self@.encode(text@));
        r
    }

    /// Joins the characters of all ids but 0 and unknown ones.
    pub fn decode_ids(&self, ids: &[usize]) -> (r: String)
        ensures
            r@ == self@.decode(ids@),
    {
        let unk: usize = self.unk_id();
        let mut out: String = String::new();
        let mut i: usize = 0;
        assert(ids@.take(0) =~= Seq::empty());
        while i < ids.len()
            invariant
                i <= ids@.len(),
                unk == 0,
                out@ == self@.decode(ids@.take(i as int)),
            decreases ids@.len() - i,
        {
            let id: usize = ids[i];
            if id != unk && id < self.id_to_char.len() {
                out.push(self.id_to_char[id]);
            }
            i += 1;
            assert(ids@.take(i as int).drop_last() =~= ids@.take(i - 1));
        }
        assert(ids@.take(i as int) =~= ids@);
        out
    }
}

impl Checkpointable for CharTokenizer {
    open spec fn valid(&self) -> bool {
        self.wf()
    }

    open spec fn weights(&self) -> Weights {
        self@.weights()
    }

    fn to_weight_map(&self) -> (r: WeightMap) {
        let mut map: WeightMap = WeightMap::new();
        map.insert_scalar("kind", TokenizerKind::Char.as_u64());
        let mut cells: Vec<String> = Vec::new();
        let mut i: usize = 0;
        while i < self.id_to_char.len()
            invariant
                i <= self.id_to_char@.len(),
                cells@.len() == i,
                forall|j: int| 0 <= j < i ==> (#[trigger] cells@[j])@ == cell(self.id_to_char@[j]),
            decreases self.id_to_char@.len() - i,
        {
            let c: char = self.id_to_char[i];
            cells.push(
                if c == '\0' {
                    String::new()
                } else {
                    string_of_char(c)
                },
            );
            i += 1;
        }
        assert(cells.deep_view() =~= Seq::new(
            self@.chars.len(),
            |i: int| cell(self@.chars[i]),
        ));
        map.insert_strings("id_to_char", cells);
        map
    }

    fn from_weight_map(&mut self, map: &WeightMap) -> (r: Result<(), DataError>)
        ensures
            match r {
                Ok(_) => CharModel::loadable(map@) && final(self)@ == CharModel::of_weights(map@),
                Err(e) => CharModel::load_error(map@, e) && *final(self) == *old(self),
            },
    {
        let cells: &Vec<String> = match map.get_strings("id_to_char") {
            Ok(v) => v,
            Err(e) => {
                return Err(e);
            },
        };
        let ghost list = cells.deep_view();
        assert(forall|j: int| 0 <= j < list.len() ==> #[trigger] list[j] == cells@[j]@);
        if cells.len() == 0 {
            return Err(DataError::NoCharacters);
        }
        let mut chars: Vec<char> = Vec::new();
        chars.push('\0');
        let mut i: usize = 1;
        while i < cells.len()
            invariant
                1 <= i <= cells@.len(),
                list == cells.deep_view(),
                list == map@.strings["id_to_char"@],
                map@.strings.contains_key("id_to_char"@),
                *self == *old(self),
                self.wf(),
                forall|j: int| 0 <= j < list.len() ==> #[trigger] list[j] == cells@[j]@,
                chars@.len() == i,
                chars@[0] == '\0',
                forall|j: int| 1 <= j < i ==> (#[trigger] list[j]).len() == 1,
                forall|j: int| 1 <= j < i ==> #[trigger] chars@[j] == list[j][0],
            decreases cells@.len() - i,
        {
            let letters: Vec<char> = crate::text::chars_of(cells[i].as_str());
            if letters.len() == 0 {
                return Err(DataError::EmptyCharacter(i));
            }
            if letters.len() > 1 {
                return Err(DataError::LongCharacter(i));
            }
            chars.push(letters[0]);
            i += 1;
        }
        self.char_to_id = index_chars(&chars);
        self.id_to_char = chars;
        assert(self@ =~= CharModel::of_weights(map@));
        Ok(())
    }
}

impl Tokenizer for CharTokenizer {
    open spec fn ready(&self) -> bool {
        self.wf()
    }

    open spec fn size(&self) -> nat {
        self@.chars.len()
    }

    open spec fn pad(&self) -> usize {
        0
    }

    open spec fn eos(&self) -> usize {
        usize::MAX
    }

    open spec fn long_ids(&self, s: Seq<char>) -> Seq<usize> {
        self@.encode(s)
    }

    open spec fn prompt_ids(&self, s: Seq<char>) -> Seq<usize> {
        self@.encode(s)
    }

    open spec fn decodable(&self, ids: Seq<usize>) -> bool {
        true
    }

    open spec fn decoded(&self, ids: Seq<usize>) -> Seq<char> {
        self@.decode(ids)
    }

    open spec fn kind_of(&self) -> TokenizerKind {
        TokenizerKind::Char
    }

    open spec fn stored(&self) -> Weights {
        self@.weights()
    }

    fn vocab_size(&self) -> (r: usize) {
        self.id_to_char.len()
    }

    fn pad_id(&self) -> (r: usize) {
        0
    }

    fn eos_id(&self) -> (r: usize) {
        usize::MAX
    }

    fn encode_long(&self, text: &str) -> (r: Vec<usize>) {
        self.encode_chars(text)
    }

    fn encode_prompt(&self, text: &str) -> (r: Vec<usize>) {
        self.encode_chars(text)
    }

    fn can_decode(&self, ids: &[usize]) -> (r: bool) {
        true
    }

    fn decode(&self, ids: &[usize]) -> (r: String) {
        self.decode_ids(ids)
    }

    fn kind(&self) -> (r: TokenizerKind) {
        TokenizerKind::Char
    }

    fn to_weight_map(&self) -> (r: WeightMap) {
        Checkpointable::to_weight_map(self)
    }
}

/// A text whose characters all have ids comes back from its ids.
pub proof fn law_char_encoding_is_lossless(m: CharModel, s: Seq<char>)
    requires
        m.chars.len() <= usize::MAX,
        forall|i: int| 0 <= i < s.len() ==> m.letters().contains(#[trigger] s[i]),
    ensures
        m.decode(m.encode(s)) == s,
    decreases s.len(),
{
    let ids = m.encode(s);
    if s.len() == 0 {
        assert(m.decode(ids) =~= s);
    } else {
        let shorter = s.drop_last();
        assert forall|i: int| 0 <= i < shorter.len() implies m.letters().contains(
            #[trigger] shorter[i],
        ) by {
            assert(shorter[i] == s[i]);
        }
        law_char_encoding_is_lossless(m, shorter);
        assert(ids.drop_last() =~= m.encode(shorter));
        let c = s.last();
        assert(s[s.len() - 1] == c);
        merges::lemma_last_index(m.letters(), c);
        assert(m.decode(ids) =~= s);
    }
}

/// A tokenizer gives back every text made of characters it was trained on.
pub proof fn law_trained_char_tokenizer_is_lossless(m: CharModel, text: Seq<char>, s: Seq<char>)
    requires
        m.chars.len() <= usize::MAX,
        lists_chars(m.letters(), text),
        forall|i: int| 0 <= i < s.len() ==> text.contains(#[trigger] s[i]),
    ensures
        m.decode(m.encode(s)) == s,
{
    law_char_encoding_is_lossless(m, s);
}

/// A character without an id is encoded as 0 and left out by decoding.
pub proof fn law_unknown_chars_are_dropped(m: CharModel, c: char)
    requires
        !m.letters().contains(c),
    ensures
        m.encode(seq![c]) == seq![0usize],
        m.decode(m.encode(seq![c])) == Seq::<char>::empty(),
{
    merges::lemma_last_index(m.letters(), c);
    assert(m.encode(seq![c]) =~= seq![0usize]);
    assert(seq![0usize].drop_last() =~= Seq::<usize>::empty());
    assert(m.decode(Seq::<usize>::empty()) =~= Seq::<char>::empty());
}

/// No id ends a text that is being generated: characters have no end marker.
pub proof fn law_no_id_ends_a_text(t: CharTokenizer, id: usize)
    requires
        id < t.size(),
        t.size() <= usize::MAX,
    ensures
        id != t.eos(),
{
}

/// A tokenizer comes back from its checkpoint, where NUL is no character of it
/// but stands at id 0.
pub proof fn law_char_tokenizer_comes_back(m: CharModel)
    requires
        m.chars.len() > 0,
        m.chars[0] == '\0',
        !m.letters().contains('\0'),
    ensures
        CharModel::loadable(m.weights()),
        CharModel::of_weights(m.weights()) == m,
{
    let list = m.weights().strings["id_to_char"@];
    assert(list =~= Seq::new(m.chars.len(), |i: int| cell(m.chars[i])));
    assert forall|i: int| 1 <= i < list.len() implies (#[trigger] list[i]).len() == 1 && list[i][0]
        == m.chars[i] by {
        assert(m.letters()[i - 1] == m.chars[i]);
    }
    assert(CharModel::of_weights(m.weights()) =~= m);
}

} // verus!
