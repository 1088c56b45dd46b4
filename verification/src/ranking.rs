//! Ranking by a share.

use vstd::prelude::*;

verus! {

/// A part of a whole. A part of nothing counts as none.
#[derive(Clone, Copy)]
pub struct Share {
    pub part: usize,
    pub whole: usize,
}

impl Share {
    /// The share as a fraction.
    pub open spec fn fraction(self) -> (nat, nat) {
        if self.whole == 0 {
            (0, 1)
        } else {
            (self.part as nat, self.whole as nat)
        }
    }

    /// This share is larger than the other.
    pub open spec fn exceeds(self, other: Share) -> bool {
        self.fraction().0 * other.fraction().1 > other.fraction().0 * self.fraction().1
    }

    /// Tells whether this share is larger than the other.
    pub fn is_above(self, other: Share) -> (r: bool)
        ensures
            r == self.exceeds(other),
    {
        let (a, b): (u128, u128) = if self.whole == 0 {
            (0, 1)
        } else {
            (self.part as u128, self.whole as u128)
        };
        let (c, d): (u128, u128) = if other.whole == 0 {
            (0, 1)
        } else {
            (other.part as u128, other.whole as u128)
        };
        proof {
            assert(0 <= a * d <= u128::MAX) by (nonlinear_arith)
                requires
                    0 <= a <= usize::MAX,
                    0 <= d <= usize::MAX,
            ;
            assert(0 <= c * b <= u128::MAX) by (nonlinear_arith)
                requires
                    0 <= c <= usize::MAX,
                    0 <= b <= usize::MAX,
            ;
        }
        a * d > c * b
    }
}

/// `a` stands before `b` in the ranking: the larger share first, and equal
/// shares in their order.
pub open spec fn ranks_before(list: Seq<Share>, a: int, b: int) -> bool {
    list[a].exceeds(list[b]) || (!list[b].exceeds(list[a]) && a < b)
}

/// `order` ranks the first `n` shares of `list`.
pub open spec fn ranks(order: Seq<usize>, list: Seq<Share>, n: int) -> bool {
    &&& order.len() == n
    &&& forall|i: int| 0 <= i < order.len() ==> (#[trigger] order[i]) < n
    &&& forall|i: int, j: int|
        0 <= i < j < order.len() ==> ranks_before(
            list,
            #[trigger] order[i] as int,
            #[trigger] order[j] as int,
        )
}

/// A larger share than a share that is not smaller is larger.
proof fn lemma_exceeds(a: Share, b: Share, c: Share)
    ensures
        !a.exceeds(a),
        a.exceeds(b) && !c.exceeds(b) ==> a.exceeds(c),
        !b.exceeds(a) && b.exceeds(c) ==> a.exceeds(c),
        !b.exceeds(a) && !c.exceeds(b) ==> !c.exceeds(a),
{
    let (p, q) = a.fraction();
    let (r, s) = b.fraction();
    let (t, u) = c.fraction();
    assert(q > 0 && s > 0 && u > 0);
    assert(p * s > r * q && t * s <= r * u ==> p * u > t * q) by (nonlinear_arith)
        requires
            q > 0,
            s > 0,
            u > 0,
            p >= 0,
            r >= 0,
            t >= 0,
    ;
    assert(r * q <= p * s && r * u > t * s ==> p * u > t * q) by (nonlinear_arith)
        requires
            q > 0,
            s > 0,
            u > 0,
            p >= 0,
            r >= 0,
            t >= 0,
    ;
    assert(r * q <= p * s && t * s <= r * u ==> t * q <= p * u) by (nonlinear_arith)
        requires
            q > 0,
            s > 0,
            u > 0,
            p >= 0,
            r >= 0,
            t >= 0,
    ;
}

/// Ranks shares: the largest first, and equal shares in their order.
pub fn rank(list: &Vec<Share>) -> (order: Vec<usize>)
    ensures
        ranks(order@, list@, list@.len() as int),
{
    let mut order: Vec<usize> = Vec::new();
    let mut n: usize = 0;
    while n < list.len()
        invariant
            n <= list@.len(),
            ranks(order@, list@, n as int),
        decreases list@.len() - n,
    {
        let ghost before = order@;
        let mut at: usize = 0;
        while at < order.len() && !list[n].is_above(list[order[at]])
            invariant
                at <= order@.len(),
                n < list@.len(),
                order@ == before,
                ranks(order@, list@, n as int),
                forall|i: int|
                    0 <= i < at ==> !list@[n as int].exceeds(list@[#[trigger] order@[i] as int]),
            decreases order@.len() - at,
        {
            at += 1;
        }
        order.insert(at, n);
        proof {
            let x = list@[n as int];
            assert forall|i: int, j: int| 0 <= i < j < order@.len() implies ranks_before(
                list@,
                #[trigger] order@[i] as int,
                #[trigger] order@[j] as int,
            ) by {
                let i0 = if i < at {
                    i
                } else {
                    i - 1
                };
                let j0 = if j < at {
                    j
                } else {
                    j - 1
                };
                if i != at {
                    assert(order@[i] == before[i0]);
                }
                if j != at {
                    assert(order@[j] == before[j0]);
                }
                if i == at {
                    let first = list@[before[at as int] as int];
                    let y = list@[before[j0] as int];
                    assert(x.exceeds(first));
                    if j0 > at {
                        assert(ranks_before(
                            list@,
                            before[at as int] as int,
                            before[j0] as int,
                        ));
                        lemma_exceeds(x, first, y);
                        lemma_exceeds(first, y, first);
                        lemma_exceeds(y, first, y);
                    }
                } else if j == at {
                    assert(!x.exceeds(list@[before[i0] as int]));
                }
            }
            assert forall|i: int| 0 <= i < order@.len() implies (#[trigger] order@[i]) < n + 1 by {
                if i < at {
                    assert(order@[i] == before[i]);
                } else if i > at {
                    assert(order@[i] == before[i - 1]);
                }
            }
        }
        n += 1;
    }
    order
}

} // verus!
