//! Which scopes of a checkpoint are apart from each other.

use crate::checkpoint::{Record, Weights};
use crate::table;
use vstd::prelude::*;

verus! {

/// The prefix of a scope, with the dot.
pub open spec fn opening(prefix: Seq<char>) -> Seq<char> {
    prefix + seq!['.']
}

/// The two texts differ at a place that both have.
pub open spec fn differ_at(a: Seq<char>, b: Seq<char>, i: int) -> bool {
    0 <= i < a.len() && i < b.len() && a[i] != b[i]
}

/// No key lies in both scopes.
pub open spec fn apart(p: Seq<char>, q: Seq<char>) -> bool {
    exists|i: int| differ_at(opening(p), opening(q), i)
}

/// The key does not lie in the scope.
pub open spec fn outside(prefix: Seq<char>, key: Seq<char>) -> bool {
    key.len() <= prefix.len() || exists|i: int| differ_at(opening(prefix), key, i)
}

/// A key in a scope starts with the opening of the scope.
proof fn lemma_opening(prefix: Seq<char>, k: Seq<char>)
    ensures
        table::scoped_key(prefix, k).len() == prefix.len() + 1 + k.len(),
        table::scoped_key(prefix, k).take(prefix.len() as int + 1) == opening(prefix),
{
    assert(table::scoped_key(prefix, k).take(prefix.len() as int + 1) =~= opening(prefix));
}

/// A key outside a scope is not in it.
pub proof fn lemma_outside(prefix: Seq<char>, key: Seq<char>)
    requires
        outside(prefix, key),
    ensures
        !table::in_scope(prefix, key),
        forall|k: Seq<char>| #[trigger] table::scoped_key(prefix, k) != key,
{
    assert forall|k: Seq<char>| #[trigger] table::scoped_key(prefix, k) != key by {
        lemma_opening(prefix, k);
        if key.len() > prefix.len() {
            let i = choose|i: int| differ_at(opening(prefix), key, i);
            assert(table::scoped_key(prefix, k).take(prefix.len() as int + 1)[i] == opening(
                prefix,
            )[i]);
        }
    }
}

/// Keys of one scope are not in another that is apart from it.
pub proof fn lemma_apart(p: Seq<char>, q: Seq<char>)
    requires
        apart(p, q),
    ensures
        forall|k: Seq<char>| !table::in_scope(q, #[trigger] table::scoped_key(p, k)),
{
    let i = choose|i: int| differ_at(opening(p), opening(q), i);
    assert forall|k: Seq<char>| !table::in_scope(q, #[trigger] table::scoped_key(p, k)) by {
        let key = table::scoped_key(p, k);
        lemma_opening(p, k);
        assert(key.take(p.len() as int + 1)[i] == opening(p)[i]);
        if table::in_scope(q, key) {
            lemma_opening(q, table::behind(q, key));
            assert(key.take(q.len() as int + 1)[i] == opening(q)[i]);
        }
    }
}

/// Scopes with one name in front are apart where the names behind it differ and
/// hold no dot.
pub proof fn lemma_names_apart(front: Seq<char>, a: Seq<char>, b: Seq<char>)
    requires
        a != b,
        forall|i: int| 0 <= i < a.len() ==> #[trigger] a[i] != '.',
        forall|i: int| 0 <= i < b.len() ==> #[trigger] b[i] != '.',
    ensures
        apart(front + a, front + b),
{
    let (p, q) = (opening(front + a), opening(front + b));
    let n = front.len() as int;
    assert(forall|i: int| 0 <= i < a.len() ==> p[n + i] == #[trigger] a[i]);
    assert(forall|i: int| 0 <= i < b.len() ==> q[n + i] == #[trigger] b[i]);
    if exists|i: int| differ_at(a, b, i) {
        let i = choose|i: int| differ_at(a, b, i);
        assert(differ_at(p, q, n + i));
    } else if a.len() == b.len() {
        assert forall|i: int| 0 <= i < a.len() implies a[i] == b[i] by {
            assert(!differ_at(a, b, i));
        }
        assert(a =~= b);
    } else if a.len() < b.len() {
        assert(differ_at(p, q, n + a.len()));
    } else {
        assert(differ_at(p, q, n + b.len()));
    }
}

/// A record outside a scope adds nothing to it.
pub proof fn lemma_scope_with(w: Weights, prefix: Seq<char>, r: Record)
    requires
        match r {
            Record::Scalar(k, _) => outside(prefix, k),
            Record::Vector(k, _) => outside(prefix, k),
            Record::Matrix(k, _) => outside(prefix, k),
            Record::Strings(k, _) => outside(prefix, k),
        },
    ensures
        w.with(r).scoped(prefix) == w.scoped(prefix),
{
    let key = match r {
        Record::Scalar(k, _) => k,
        Record::Vector(k, _) => k,
        Record::Matrix(k, _) => k,
        Record::Strings(k, _) => k,
    };
    lemma_outside(prefix, key);
    assert(w.with(r).scoped(prefix).scalars =~= w.scoped(prefix).scalars);
    assert(w.with(r).scoped(prefix).vectors =~= w.scoped(prefix).vectors);
    assert(w.with(r).scoped(prefix).matrices =~= w.scoped(prefix).matrices);
    assert(w.with(r).scoped(prefix).strings =~= w.scoped(prefix).strings);
}

/// What is merged under one prefix adds nothing to a scope apart from it.
pub proof fn law_scopes_do_not_mix(w: Weights, p: Seq<char>, q: Seq<char>, part: Weights)
    requires
        apart(p, q),
    ensures
        w.merged(q, part).scoped(p) == w.scoped(p),
{
    lemma_apart(p, q);
    assert(w.merged(q, part).scoped(p).scalars =~= w.scoped(p).scalars);
    assert(w.merged(q, part).scoped(p).vectors =~= w.scoped(p).vectors);
    assert(w.merged(q, part).scoped(p).matrices =~= w.scoped(p).matrices);
    assert(w.merged(q, part).scoped(p).strings =~= w.scoped(p).strings);
}

/// What is merged under a prefix leaves the scalars outside alone.
pub proof fn lemma_scalar_stays(w: Weights, q: Seq<char>, part: Weights, key: Seq<char>)
    requires
        outside(q, key),
    ensures
        w.merged(q, part).scalars.contains_key(key) == w.scalars.contains_key(key),
        w.scalars.contains_key(key) ==> w.merged(q, part).scalars[key] == w.scalars[key],
{
    lemma_outside(q, key);
}

/// In a map without the scope, what is merged is found alone.
pub proof fn lemma_scope_is_part(w: Weights, prefix: Seq<char>, part: Weights)
    requires
        w.scoped(prefix) == Weights::empty(),
    ensures
        w.merged(prefix, part).scoped(prefix) == part,
{
    crate::checkpoint::law_scope_gives_back_what_was_merged(w, prefix, part);
    assert(Weights::empty().overlaid(part) =~= part);
}

/// Nothing stands in a scope of nothing.
pub proof fn lemma_scope_of_empty(prefix: Seq<char>)
    ensures
        Weights::empty().scoped(prefix) == Weights::empty(),
{
    assert(Weights::empty().scoped(prefix) =~= Weights::empty());
}

/// If one scope is apart from another, so is the other from the one.
pub proof fn lemma_apart_is_symmetric(p: Seq<char>, q: Seq<char>)
    requires
        apart(p, q),
    ensures
        apart(q, p),
{
    let i = choose|i: int| differ_at(opening(p), opening(q), i);
    assert(differ_at(opening(q), opening(p), i));
}

/// Every two of four scopes are apart.
pub open spec fn all_apart(p: (Seq<char>, Seq<char>, Seq<char>, Seq<char>)) -> bool {
    &&& apart(p.0, p.1)
    &&& apart(p.0, p.2)
    &&& apart(p.0, p.3)
    &&& apart(p.1, p.2)
    &&& apart(p.1, p.3)
    &&& apart(p.2, p.3)
}

/// Four parts merged into `w`, each into its scope.
pub open spec fn four_parts(
    w: Weights,
    p: (Seq<char>, Seq<char>, Seq<char>, Seq<char>),
    parts: (Weights, Weights, Weights, Weights),
) -> Weights {
    w.merged(p.0, parts.0).merged(p.1, parts.1).merged(p.2, parts.2).merged(p.3, parts.3)
}

/// Four parts in scopes that are apart are found again.
pub proof fn lemma_four_parts(
    w: Weights,
    p: (Seq<char>, Seq<char>, Seq<char>, Seq<char>),
    parts: (Weights, Weights, Weights, Weights),
)
    requires
        all_apart(p),
        w.scoped(p.0) == Weights::empty(),
        w.scoped(p.1) == Weights::empty(),
        w.scoped(p.2) == Weights::empty(),
        w.scoped(p.3) == Weights::empty(),
    ensures
        four_parts(w, p, parts).scoped(p.0) == parts.0,
        four_parts(w, p, parts).scoped(p.1) == parts.1,
        four_parts(w, p, parts).scoped(p.2) == parts.2,
        four_parts(w, p, parts).scoped(p.3) == parts.3,
{
    let w1 = w.merged(p.0, parts.0);
    let w2 = w1.merged(p.1, parts.1);
    let w3 = w2.merged(p.2, parts.2);
    assert(four_parts(w, p, parts).scoped(p.0) == parts.0) by {
        lemma_scope_is_part(w, p.0, parts.0);
        law_scopes_do_not_mix(w1, p.0, p.1, parts.1);
        law_scopes_do_not_mix(w2, p.0, p.2, parts.2);
        law_scopes_do_not_mix(w3, p.0, p.3, parts.3);
    }
    assert(four_parts(w, p, parts).scoped(p.1) == parts.1) by {
        lemma_apart_is_symmetric(p.0, p.1);
        law_scopes_do_not_mix(w, p.1, p.0, parts.0);
        lemma_scope_is_part(w1, p.1, parts.1);
        law_scopes_do_not_mix(w2, p.1, p.2, parts.2);
        law_scopes_do_not_mix(w3, p.1, p.3, parts.3);
    }
    assert(four_parts(w, p, parts).scoped(p.2) == parts.2) by {
        lemma_apart_is_symmetric(p.0, p.2);
        lemma_apart_is_symmetric(p.1, p.2);
        law_scopes_do_not_mix(w, p.2, p.0, parts.0);
        law_scopes_do_not_mix(w1, p.2, p.1, parts.1);
        lemma_scope_is_part(w2, p.2, parts.2);
        law_scopes_do_not_mix(w3, p.2, p.3, parts.3);
    }
    assert(four_parts(w, p, parts).scoped(p.3) == parts.3) by {
        lemma_apart_is_symmetric(p.0, p.3);
        lemma_apart_is_symmetric(p.1, p.3);
        lemma_apart_is_symmetric(p.2, p.3);
        law_scopes_do_not_mix(w, p.3, p.0, parts.0);
        law_scopes_do_not_mix(w1, p.3, p.1, parts.1);
        law_scopes_do_not_mix(w2, p.3, p.2, parts.2);
        lemma_scope_is_part(w3, p.3, parts.3);
    }
}

/// Merging four parts leaves a scalar outside their scopes alone.
pub proof fn lemma_scalar_beside_four_parts(
    w: Weights,
    p: (Seq<char>, Seq<char>, Seq<char>, Seq<char>),
    parts: (Weights, Weights, Weights, Weights),
    key: Seq<char>,
)
    requires
        outside(p.0, key),
        outside(p.1, key),
        outside(p.2, key),
        outside(p.3, key),
    ensures
        four_parts(w, p, parts).scalars.contains_key(key) == w.scalars.contains_key(key),
        w.scalars.contains_key(key) ==> four_parts(w, p, parts).scalars[key] == w.scalars[key],
{
    let w1 = w.merged(p.0, parts.0);
    let w2 = w1.merged(p.1, parts.1);
    let w3 = w2.merged(p.2, parts.2);
    lemma_scalar_stays(w, p.0, parts.0, key);
    lemma_scalar_stays(w1, p.1, parts.1, key);
    lemma_scalar_stays(w2, p.2, parts.2, key);
    lemma_scalar_stays(w3, p.3, parts.3, key);
}

} // verus!
