//! Vocabularies and merges as checkpoints hold them.

use vstd::hash_map::StringHashMap;
use vstd::prelude::*;

use crate::checkpoint::Weights;
use crate::error::DataError;
use crate::merges;
use crate::pair_table::{Pair, PairTable};
use crate::text;

verus! {

/// The pairs, one string behind the other.
pub open spec fn flattened(list: Seq<Pair>) -> Seq<Seq<char>> {
    Seq::new(
        2 * list.len(),
        |i: int|
            if i % 2 == 0 {
                list[i / 2].0
            } else {
                list[i / 2].1
            },
    )
}

/// Each two strings, taken as a pair.
pub open spec fn unflattened(flat: Seq<Seq<char>>) -> Seq<Pair> {
    Seq::new((flat.len() / 2) as nat, |i: int| (flat[2 * i], flat[2 * i + 1]))
}

/// Pairs come back from the flat list.
pub proof fn lemma_unflattened(list: Seq<Pair>)
    ensures
        flattened(list).len() % 2 == 0,
        unflattened(flattened(list)) == list,
{
    let flat = flattened(list);
    assert(flat.len() == 2 * list.len());
    assert forall|i: int| 0 <= i < list.len() implies unflattened(flat)[i] == list[i] by {
        assert((2 * i) % 2 == 0 && (2 * i) / 2 == i);
        assert((2 * i + 1) % 2 == 1 && (2 * i + 1) / 2 == i);
    }
    assert(unflattened(flat) =~= list);
}

/// The stored parts that every subword tokenizer needs are there.
pub open spec fn loadable(w: Weights) -> bool {
    &&& w.strings.contains_key("id_to_token"@)
    &&& w.scalars.contains_key("unk_id"@)
    &&& w.strings.contains_key("merges"@)
    &&& w.strings["merges"@].len() % 2 == 0
}

/// The error on the first part that is missing or cannot be used.
pub open spec fn load_error(w: Weights, e: DataError) -> bool {
    if !w.strings.contains_key("id_to_token"@) {
        e.is_missing("id_to_token"@)
    } else if !w.scalars.contains_key("unk_id"@) {
        e.is_missing("unk_id"@)
    } else if !w.strings.contains_key("merges"@) {
        e.is_missing("merges"@)
    } else {
        w.strings["merges"@].len() % 2 != 0 && e == DataError::OddMerges
    }
}

/// Finds every token under its last position.
pub fn index_tokens(tokens: &Vec<String>) -> (r: StringHashMap<usize>)
    ensures
        merges::indexes_tokens(r@, text::texts(tokens@)),
{
    let ghost all = text::texts(tokens@);
    let mut r: StringHashMap<usize> = StringHashMap::new();
    let mut i: usize = 0;
    assert(all.take(0) =~= Seq::empty());
    while i < tokens.len()
        invariant
            i <= tokens@.len(),
            all == text::texts(tokens@),
            merges::indexes_tokens(r@, all.take(i as int)),
        decreases tokens@.len() - i,
    {
        let ghost before = r@;
        r.insert(tokens[i].clone(), i);
        i += 1;
        proof {
            let next = all.take(i as int);
            assert(next.drop_last() =~= all.take(i - 1));
            assert forall|t: Seq<char>| #![trigger r@.contains_key(t)]
                match merges::last_index(next, t) {
                    Some(k) => r@.contains_key(t) && r@[t] == k,
                    None => !r@.contains_key(t),
                } by {
                let k = merges::last_index(all.take(i - 1), t);
                assert(before.contains_key(t) == k is Some);
            }
        }
    }
    assert(all.take(i as int) =~= all);
    r
}

/// Gives every pair its last position.
pub fn rank_pairs(list: &Vec<(String, String)>) -> (r: PairTable)
    ensures
        r.wf(),
        merges::ranks_merges(r@, merges::pairs_of(list@)),
{
    let ghost all = merges::pairs_of(list@);
    let mut r: PairTable = PairTable::new();
    let mut i: usize = 0;
    assert(all.take(0) =~= Seq::empty());
    while i < list.len()
        invariant
            i <= list@.len(),
            all == merges::pairs_of(list@),
            r.wf(),
            merges::ranks_merges(r@, all.take(i as int)),
        decreases list@.len() - i,
    {
        let ghost before = r@;
        r.insert(list[i].0.as_str(), list[i].1.as_str(), i);
        i += 1;
        proof {
            let next = all.take(i as int);
            assert(next.drop_last() =~= all.take(i - 1));
            assert forall|p: Pair| #![trigger r@.contains_key(p)]
                match merges::last_index(next, p) {
                    Some(k) => r@.contains_key(p) && r@[p] == k,
                    None => !r@.contains_key(p),
                } by {
                let k = merges::last_index(all.take(i - 1), p);
                assert(before.contains_key(p) == k is Some);
            }
        }
    }
    assert(all.take(i as int) =~= all);
    r
}

/// Takes each two strings as a pair.
pub fn pairs_from_flat(flat: &Vec<String>) -> (r: Vec<(String, String)>)
    requires
        flat@.len() % 2 == 0,
    ensures
        merges::pairs_of(r@) == unflattened(text::texts(flat@)),
{
    let n: usize = flat.len();
    let mut r: Vec<(String, String)> = Vec::new();
    let mut i: usize = 0;
    while i < n
        invariant
            i <= n == flat@.len(),
            n % 2 == 0,
            i == 2 * r@.len(),
            forall|k: int|
                0 <= k < r@.len() ==> (#[trigger] r@[k]).0@ == flat@[2 * k]@ && r@[k].1@ == flat@[2
                    * k + 1]@,
        decreases n - i,
    {
        r.push((flat[i].clone(), flat[i + 1].clone()));
        i += 2;
    }
    assert(merges::pairs_of(r@) =~= unflattened(text::texts(flat@)));
    r
}

/// The strings of the pairs, one behind the other.
pub fn flatten_pairs(list: &Vec<(String, String)>) -> (r: Vec<String>)
    ensures
        text::texts(r@) == flattened(merges::pairs_of(list@)),
{
    let mut r: Vec<String> = Vec::new();
    let mut i: usize = 0;
    while i < list.len()
        invariant
            i <= list@.len(),
            r@.len() == 2 * i,
            forall|k: int|
                0 <= k < r@.len() ==> (#[trigger] r@[k])@ == flattened(merges::pairs_of(list@))[k],
        decreases list@.len() - i,
    {
        r.push(list[i].0.clone());
        r.push(list[i].1.clone());
        i += 1;
    }
    assert(text::texts(r@) =~= flattened(merges::pairs_of(list@)));
    r
}

/// A copy of a list of strings.
pub fn copy_strings(list: &Vec<String>) -> (r: Vec<String>)
    ensures
        text::texts(r@) == text::texts(list@),
{
    let mut r: Vec<String> = Vec::new();
    let mut i: usize = 0;
    while i < list.len()
        invariant
            i <= list@.len(),
            r@.len() == i,
            forall|k: int| 0 <= k < i ==> (#[trigger] r@[k])@ == list@[k]@,
        decreases list@.len() - i,
    {
        r.push(list[i].clone());
        i += 1;
    }
    assert(text::texts(r@) =~= text::texts(list@));
    r
}

} // verus!
