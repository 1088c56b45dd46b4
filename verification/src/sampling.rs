//! Which tokens are drawn from, and which is drawn: the scores of the tokens put in
//! order, and sums of their probabilities.
//!
//! Both are 32-bit floats, given by their bit patterns.

use crate::float_order::{self, is_less, key_of};
use vstd::prelude::*;

verus! {

/// Token `a` has a higher score than `b`, or the same score and a lower id.
pub open spec fn ahead(scores: Seq<u32>, a: int, b: int) -> bool {
    ||| float_order::order_key(scores[a]) > float_order::order_key(scores[b])
    ||| float_order::order_key(scores[a]) == float_order::order_key(scores[b]) && a < b
}

/// The list puts the tokens from `lo` up to `hi` in order.
pub open spec fn in_order(scores: Seq<u32>, list: Seq<usize>, lo: int, hi: int) -> bool {
    &&& list.len() == hi - lo
    &&& forall|i: int| 0 <= i < list.len() ==> lo <= #[trigger] list[i] < hi
    &&& forall|k: usize| lo <= k < hi ==> #[trigger] list.contains(k)
    &&& forall|i: int, j: int|
        0 <= i < j < list.len() ==> ahead(
            scores,
            #[trigger] list[i] as int,
            #[trigger] list[j] as int,
        )
}

/// Every token listed in `part` is listed in `whole`.
spec fn lists(whole: Seq<usize>, part: Seq<usize>) -> bool {
    forall|i: int| 0 <= i < part.len() ==> whole.contains(#[trigger] part[i])
}

/// A list stays listed when a token is added.
proof fn lemma_lists_push(whole: Seq<usize>, part: Seq<usize>, k: usize)
    requires
        lists(whole, part),
    ensures
        lists(whole.push(k), part),
        lists(whole.push(k), part.push(k)),
{
    assert forall|i: int| 0 <= i < part.push(k).len() implies whole.push(k).contains(
        #[trigger] part.push(k)[i],
    ) by {
        if i < part.len() {
            assert(whole.contains(part[i]));
            let j = choose|j: int| 0 <= j < whole.len() && whole[j] == part[i];
            assert(whole.push(k)[j] == part[i]);
        } else {
            assert(whole.push(k)[whole.len() as int] == k);
        }
    }
    assert forall|i: int| 0 <= i < part.len() implies whole.push(k).contains(
        #[trigger] part[i],
    ) by {
        assert(whole.push(k).contains(part.push(k)[i]));
    }
}

/// Puts together two ordered lists of neighbouring tokens.
fn merge(scores: &[u32], a: &Vec<usize>, b: &Vec<usize>, lo: usize, mid: usize, hi: usize) -> (r:
    Vec<usize>)
    requires
        lo <= mid <= hi <= scores@.len(),
        in_order(scores@, a@, lo as int, mid as int),
        in_order(scores@, b@, mid as int, hi as int),
    ensures
        in_order(scores@, r@, lo as int, hi as int),
{
    let mut r: Vec<usize> = Vec::new();
    let mut i: usize = 0;
    let mut j: usize = 0;
    while i < a.len() || j < b.len()
        invariant
            lo <= mid <= hi <= scores@.len(),
            in_order(scores@, a@, lo as int, mid as int),
            in_order(scores@, b@, mid as int, hi as int),
            i <= a@.len(),
            j <= b@.len(),
            r@.len() == i + j,
            forall|k: int| 0 <= k < r@.len() ==> lo <= #[trigger] r@[k] < hi,
            lists(r@, a@.take(i as int)),
            lists(r@, b@.take(j as int)),
            forall|x: int, y: int|
                0 <= x < y < r@.len() ==> ahead(
                    scores@,
                    #[trigger] r@[x] as int,
                    #[trigger] r@[y] as int,
                ),
            forall|x: int, y: int|
                0 <= x < r@.len() && i <= y < a@.len() ==> ahead(
                    scores@,
                    #[trigger] r@[x] as int,
                    #[trigger] a@[y] as int,
                ),
            forall|x: int, y: int|
                0 <= x < r@.len() && j <= y < b@.len() ==> ahead(
                    scores@,
                    #[trigger] r@[x] as int,
                    #[trigger] b@[y] as int,
                ),
        decreases a@.len() - i + b@.len() - j,
    {
        let ghost before = r@;
        let take_a: bool = if i >= a.len() {
            false
        } else if j >= b.len() {
            true
        } else {
            key_of(scores[a[i]]) >= key_of(scores[b[j]])
        };
        if take_a {
            proof {
                lemma_lists_push(before, a@.take(i as int), a@[i as int]);
                lemma_lists_push(before, b@.take(j as int), a@[i as int]);
                assert(a@.take(i + 1) =~= a@.take(i as int).push(a@[i as int]));
            }
            r.push(a[i]);
            i += 1;
        } else {
            proof {
                lemma_lists_push(before, a@.take(i as int), b@[j as int]);
                lemma_lists_push(before, b@.take(j as int), b@[j as int]);
                assert(b@.take(j + 1) =~= b@.take(j as int).push(b@[j as int]));
            }
            r.push(b[j]);
            j += 1;
        }
    }
    proof {
        assert(a@.take(a@.len() as int) =~= a@);
        assert(b@.take(b@.len() as int) =~= b@);
        assert forall|k: usize| lo <= k < hi implies #[trigger] r@.contains(k) by {
            if k < mid {
                assert(a@.contains(k));
                let x = choose|x: int| 0 <= x < a@.len() && a@[x] == k;
                assert(r@.contains(a@[x]));
            } else {
                assert(b@.contains(k));
                let x = choose|x: int| 0 <= x < b@.len() && b@[x] == k;
                assert(r@.contains(b@[x]));
            }
        }
    }
    r
}

/// The tokens from `lo` up to `hi` in order.
fn sorted(scores: &[u32], lo: usize, hi: usize) -> (r: Vec<usize>)
    requires
        lo <= hi <= scores@.len(),
    ensures
        in_order(scores@, r@, lo as int, hi as int),
    decreases hi - lo,
{
    let mut r: Vec<usize> = Vec::new();
    if hi - lo == 0 {
        return r;
    }
    if hi - lo == 1 {
        r.push(lo);
        assert(r@[0] == lo);
        return r;
    }
    let mid: usize = lo + (hi - lo) / 2;
    let a: Vec<usize> = sorted(scores, lo, mid);
    let b: Vec<usize> = sorted(scores, mid, hi);
    merge(scores, &a, &b, lo, mid, hi)
}

/// The scores can be compared with each other: none of them is not a number. A
/// score that stands alone is compared with nothing.
pub open spec fn comparable(scores: Seq<u32>) -> bool {
    scores.len() > 1 ==> forall|i: int|
        0 <= i < scores.len() ==> !float_order::not_a_number(#[trigger] scores[i])
}

/// All tokens, those with the highest scores first. Of tokens with the same score
/// the one with the lowest id comes first.
pub fn ranked(scores: &[u32]) -> (r: Vec<usize>)
    requires
        comparable(scores@),
    ensures
        in_order(scores@, r@, 0, scores@.len() as int),
{
    sorted(scores, 0, scores.len())
}

/// The first `k` of a list, or all where there are fewer.
pub open spec fn first(list: Seq<usize>, k: int) -> Seq<usize> {
    if k <= list.len() {
        list.take(k)
    } else {
        list
    }
}

/// The `k` tokens with the highest scores, or all where there are fewer.
pub fn top_k(scores: &[u32], k: usize) -> (r: Vec<usize>)
    requires
        comparable(scores@),
    ensures
        exists|all: Seq<usize>| #[trigger]
            in_order(scores@, all, 0, scores@.len() as int) && r@ == first(all, k as int),
{
    let mut r: Vec<usize> = ranked(scores);
    let ghost all = r@;
    if k < r.len() {
        r.truncate(k);
        assert(r@ =~= all.take(k as int));
    } else {
        assert(r@ =~= all.take(all.len() as int));
    }
    assert(in_order(scores@, all, 0, scores@.len() as int));
    r
}

/// The token with the highest score. Of several the one with the highest id.
pub fn greedy(scores: &[u32]) -> (r: usize)
    requires
        scores@.len() > 0,
        comparable(scores@),
    ensures
        r < scores@.len(),
        forall|i: int|
            0 <= i < scores@.len() ==> float_order::order_key(#[trigger] scores@[i]) <= float_order::order_key(
                scores@[r as int],
            ),
        forall|i: int|
            r < i < scores@.len() ==> float_order::order_key(#[trigger] scores@[i]) < float_order::order_key(
                scores@[r as int],
            ),
{
    let n: usize = scores.len();
    let mut best: usize = 0;
    let mut i: usize = 1;
    while i < n
        invariant
            1 <= i <= n,
            n == scores@.len(),
            best < i,
            forall|k: int|
                0 <= k < i ==> float_order::order_key(#[trigger] scores@[k]) <= float_order::order_key(scores@[best as int]),
            forall|k: int|
                best < k < i ==> float_order::order_key(#[trigger] scores@[k]) < float_order::order_key(scores@[best as int]),
        decreases n - i,
    {
        if key_of(scores[i]) >= key_of(scores[best]) {
            best = i;
        }
        i += 1;
    }
    best
}

/// An order lists every token once.
pub proof fn law_order_lists_every_token_once(scores: Seq<u32>, list: Seq<usize>, lo: int, hi: int)
    requires
        in_order(scores, list, lo, hi),
    ensures
        list.no_duplicates(),
        forall|k: usize| #[trigger] list.contains(k) <==> lo <= k < hi,
{
    assert forall|i: int, j: int| 0 <= i < list.len() && 0 <= j < list.len() && i != j implies list[i]
        != list[j] by {
        if i < j {
            assert(ahead(scores, list[i] as int, list[j] as int));
        } else {
            assert(ahead(scores, list[j] as int, list[i] as int));
        }
    }
    assert forall|k: usize| #[trigger] list.contains(k) implies lo <= k < hi by {
        let i = choose|i: int| 0 <= i < list.len() && list[i] == k;
        assert(lo <= list[i] < hi);
    }
}

/// There is one order only.
pub proof fn law_there_is_one_order(
    scores: Seq<u32>,
    a: Seq<usize>,
    b: Seq<usize>,
    lo: int,
    hi: int,
)
    requires
        in_order(scores, a, lo, hi),
        in_order(scores, b, lo, hi),
    ensures
        a == b,
{
    lemma_same_start(scores, a, b, lo, hi, a.len() as int);
    assert(a.take(a.len() as int) =~= a);
    assert(b.take(b.len() as int) =~= b);
}

/// Two orders of the same tokens start alike.
proof fn lemma_same_start(
    scores: Seq<u32>,
    a: Seq<usize>,
    b: Seq<usize>,
    lo: int,
    hi: int,
    n: int,
)
    requires
        in_order(scores, a, lo, hi),
        in_order(scores, b, lo, hi),
        0 <= n <= a.len(),
    ensures
        a.take(n) == b.take(n),
    decreases n,
{
    if n == 0 {
        assert(a.take(0) =~= b.take(0));
    } else {
        let m = n - 1;
        lemma_same_start(scores, a, b, lo, hi, m);
        assert(forall|i: int| 0 <= i < m ==> a[i] == a.take(m)[i] && b[i] == b.take(m)[i]);
        assert(a[m] == b[m]) by {
            assert(b.contains(a[m]) && a.contains(b[m]));
            let p = choose|p: int| 0 <= p < b.len() && b[p] == a[m];
            let q = choose|q: int| 0 <= q < a.len() && a[q] == b[m];
            if p < m {
                assert(ahead(scores, a[p] as int, a[m] as int));
            } else if q < m {
                assert(ahead(scores, b[q] as int, b[m] as int));
            } else if a[m] != b[m] {
                assert(ahead(scores, b[m] as int, b[p] as int));
                assert(ahead(scores, a[m] as int, a[q] as int));
            }
        }
        assert(a.take(n) =~= a.take(m).push(a[m]));
        assert(b.take(n) =~= b.take(m).push(b[m]));
    }
}

/// What the highest-scored token of an order is: no other has a higher score.
pub proof fn law_first_has_the_highest_score(scores: Seq<u32>, list: Seq<usize>, k: int)
    requires
        in_order(scores, list, 0, scores.len() as int),
        0 <= k < scores.len() <= usize::MAX,
    ensures
        float_order::order_key(scores[k]) <= float_order::order_key(scores[list[0] as int]),
{
    assert(list.contains(k as usize));
    let i = choose|i: int| 0 <= i < list.len() && list[i] == k as usize;
    if i > 0 {
        assert(ahead(scores, list[0] as int, list[i] as int));
    }
}

/// The bit pattern of the share that keeps every candidate.
pub const WHOLE: u32 = 0x3f80_0000;

/// The number of candidates up to and with the first at which the sum of the
/// probabilities is at least `p`, or of all where it never is. `sums[i]` is the sum
/// over the candidates up to and with `i`.
pub open spec fn first_reaching(sums: Seq<u32>, p: u32) -> int
    decreases sums.len(),
{
    if sums.len() == 0 {
        0
    } else if float_order::at_least(sums[0], p) {
        1
    } else {
        1 + first_reaching(sums.skip(1), p)
    }
}

/// The number of candidates to keep: all for a share of one or more, whatever
/// rounding made of the sums, and otherwise those up to the first at which the sum
/// of the probabilities is at least `p`.
pub open spec fn nucleus(sums: Seq<u32>, p: u32) -> int {
    if float_order::order_key(p) >= float_order::order_key(WHOLE) {
        sums.len() as int
    } else {
        first_reaching(sums, p)
    }
}

/// The first candidate at which the sum of the probabilities exceeds `r`, or the
/// first of all where it never does.
pub open spec fn place_drawn(sums: Seq<u32>, r: u32) -> int {
    if exists|i: int| 0 <= i < sums.len() && float_order::less(r, #[trigger] sums[i]) {
        first_above(sums, r)
    } else {
        0
    }
}

/// The number of candidates before the sum of the probabilities exceeds `r`.
pub open spec fn first_above(sums: Seq<u32>, r: u32) -> int
    decreases sums.len(),
{
    if sums.len() == 0 || float_order::less(r, sums[0]) {
        0
    } else {
        1 + first_above(sums.skip(1), r)
    }
}

/// The number of candidates to keep.
pub fn nucleus_size(sums: &[u32], p: u32) -> (r: usize)
    ensures
        r == nucleus(sums@, p),
{
    let n: usize = sums.len();
    if float_order::key_of(p) >= float_order::key_of(WHOLE) {
        return n;
    }
    let mut i: usize = 0;
    assert(sums@.skip(0) =~= sums@);
    while i < n
        invariant
            i <= n,
            n == sums@.len(),
            nucleus(sums@, p) == first_reaching(sums@, p),
            first_reaching(sums@, p) == i + first_reaching(sums@.skip(i as int), p),
        decreases n - i,
    {
        assert(sums@.skip(i as int).skip(1) =~= sums@.skip(i + 1));
        if float_order::is_at_least(sums[i], p) {
            return i + 1;
        }
        i += 1;
    }
    n
}

/// The place of the candidate that the random number `r` draws.
pub fn draw_place(sums: &[u32], r: u32) -> (place: usize)
    ensures
        place == place_drawn(sums@, r),
{
    let n: usize = sums.len();
    let mut i: usize = 0;
    assert(sums@.skip(0) =~= sums@);
    while i < n
        invariant
            i <= n,
            n == sums@.len(),
            first_above(sums@, r) == i + first_above(sums@.skip(i as int), r),
            forall|k: int| 0 <= k < i ==> !float_order::less(r, #[trigger] sums@[k]),
        decreases n - i,
    {
        assert(sums@.skip(i as int).skip(1) =~= sums@.skip(i + 1));
        if is_less(r, sums[i]) {
            assert(float_order::less(r, sums@[i as int]));
            return i;
        }
        i += 1;
    }
    0
}

/// Of some candidates at least one is kept, and no more than there are. Where some
/// are left out, the sum up to the last one kept is at least `p`. For a share below
/// one no sum before it is.
pub proof fn law_a_nucleus_is_never_empty(sums: Seq<u32>, p: u32)
    requires
        sums.len() > 0,
    ensures
        1 <= nucleus(sums, p) <= sums.len(),
        nucleus(sums, p) < sums.len() ==> float_order::at_least(sums[nucleus(sums, p) - 1], p),
        float_order::order_key(p) < float_order::order_key(WHOLE) ==> forall|i: int|
            0 <= i < nucleus(sums, p) - 1 ==> !float_order::at_least(#[trigger] sums[i], p),
{
    lemma_first_reaching(sums, p);
}

/// A share of one or more keeps every candidate.
pub proof fn law_the_whole_share_keeps_all(sums: Seq<u32>, p: u32)
    requires
        float_order::order_key(p) >= float_order::order_key(WHOLE),
    ensures
        nucleus(sums, p) == sums.len(),
{
}

/// The first sum that is at least `p` is found.
proof fn lemma_first_reaching(sums: Seq<u32>, p: u32)
    requires
        sums.len() > 0,
    ensures
        1 <= first_reaching(sums, p) <= sums.len(),
        first_reaching(sums, p) < sums.len() ==> float_order::at_least(
            sums[first_reaching(sums, p) - 1],
            p,
        ),
        forall|i: int|
            0 <= i < first_reaching(sums, p) - 1 ==> !float_order::at_least(#[trigger] sums[i], p),
    decreases sums.len(),
{
    let rest = sums.skip(1);
    reveal_with_fuel(first_reaching, 2);
    if !float_order::at_least(sums[0], p) && rest.len() > 0 {
        lemma_first_reaching(rest, p);
        assert forall|i: int| 0 <= i < first_reaching(sums, p) - 1 implies !float_order::at_least(
            #[trigger] sums[i],
            p,
        ) by {
            if i > 0 {
                assert(sums[i] == rest[i - 1]);
            }
        }
    }
}

/// A larger share keeps no fewer candidates.
pub proof fn law_a_larger_share_keeps_more(sums: Seq<u32>, p: u32, q: u32)
    requires
        !float_order::not_a_number(p),
        !float_order::not_a_number(q),
        float_order::order_key(p) <= float_order::order_key(q),
    ensures
        nucleus(sums, p) <= nucleus(sums, q),
{
    if sums.len() > 0 {
        lemma_first_reaching(sums, p);
    }
    lemma_reaching_more(sums, p, q);
}

/// A larger share is reached no earlier.
proof fn lemma_reaching_more(sums: Seq<u32>, p: u32, q: u32)
    requires
        !float_order::not_a_number(p),
        !float_order::not_a_number(q),
        float_order::order_key(p) <= float_order::order_key(q),
    ensures
        first_reaching(sums, p) <= first_reaching(sums, q),
    decreases sums.len(),
{
    if sums.len() > 0 {
        lemma_reaching_more(sums.skip(1), p, q);
        if !float_order::at_least(sums[0], q) && float_order::at_least(sums[0], p) {
            if sums.len() > 1 {
                lemma_first_reaching(sums.skip(1), q);
            }
        }
    }
}

/// What is drawn is one of the candidates: the one whose part of the sum the
/// random number falls into.
pub proof fn law_a_draw_finds_its_part(sums: Seq<u32>, r: u32)
    requires
        sums.len() > 0,
    ensures
        0 <= place_drawn(sums, r) < sums.len(),
        forall|i: int|
            0 <= i < place_drawn(sums, r) ==> !float_order::less(r, #[trigger] sums[i]),
        (exists|i: int| 0 <= i < sums.len() && float_order::less(r, #[trigger] sums[i]))
            ==> float_order::less(r, sums[place_drawn(sums, r)]),
    decreases sums.len(),
{
    if exists|i: int| 0 <= i < sums.len() && float_order::less(r, #[trigger] sums[i]) {
        if !float_order::less(r, sums[0]) {
            let rest = sums.skip(1);
            let i = choose|i: int| 0 <= i < sums.len() && float_order::less(r, #[trigger] sums[i]);
            assert(rest[i - 1] == sums[i]);
            law_a_draw_finds_its_part(rest, r);
            assert(place_drawn(sums, r) == 1 + place_drawn(rest, r));
            assert forall|k: int| 0 <= k < place_drawn(sums, r) implies !float_order::less(
                r,
                #[trigger] sums[k],
            ) by {
                if k > 0 {
                    assert(sums[k] == rest[k - 1]);
                }
            }
        }
    }
}

} // verus!
