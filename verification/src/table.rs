//! A map from strings to values whose keys stay in order.

use vstd::prelude::*;

verus! {

/// Bytewise order: the first difference decides, and a text comes before its
/// continuations.
pub open spec fn bytes_before(a: Seq<u8>, b: Seq<u8>) -> bool
    decreases a.len(),
{
    if b.len() == 0 {
        false
    } else if a.len() == 0 {
        true
    } else if a[0] != b[0] {
        a[0] < b[0]
    } else {
        bytes_before(a.skip(1), b.skip(1))
    }
}

/// The order of strings: that of their UTF-8 bytes.
pub open spec fn before(a: Seq<char>, b: Seq<char>) -> bool {
    bytes_before(vstd::utf8::encode_utf8(a), vstd::utf8::encode_utf8(b))
}

proof fn lemma_bytes_before_irreflexive(a: Seq<u8>)
    ensures
        !bytes_before(a, a),
    decreases a.len(),
{
    if a.len() > 0 {
        lemma_bytes_before_irreflexive(a.skip(1));
    }
}

proof fn lemma_bytes_before_transitive(a: Seq<u8>, b: Seq<u8>, c: Seq<u8>)
    requires
        bytes_before(a, b),
        bytes_before(b, c),
    ensures
        bytes_before(a, c),
    decreases a.len(),
{
    if a.len() > 0 && a[0] == b[0] && b[0] == c[0] {
        lemma_bytes_before_transitive(a.skip(1), b.skip(1), c.skip(1));
    }
}

proof fn lemma_bytes_before_total(a: Seq<u8>, b: Seq<u8>)
    ensures
        bytes_before(a, b) || bytes_before(b, a) || a == b,
    decreases a.len(),
{
    if a.len() > 0 && b.len() > 0 && a[0] == b[0] {
        lemma_bytes_before_total(a.skip(1), b.skip(1));
        if a.skip(1) == b.skip(1) {
            assert forall|i: int| 0 <= i < a.len() implies a[i] == b[i] by {
                if i > 0 {
                    assert(a[i] == a.skip(1)[i - 1]);
                    assert(b[i] == b.skip(1)[i - 1]);
                }
            }
            assert(a.len() == a.skip(1).len() + 1);
            assert(a =~= b);
        }
    } else if a.len() == 0 && b.len() == 0 {
        assert(a =~= b);
    }
}

/// No string comes before itself.
pub proof fn lemma_before_irreflexive(a: Seq<char>)
    ensures
        !before(a, a),
{
    lemma_bytes_before_irreflexive(vstd::utf8::encode_utf8(a));
}

pub proof fn lemma_before_transitive(a: Seq<char>, b: Seq<char>, c: Seq<char>)
    requires
        before(a, b),
        before(b, c),
    ensures
        before(a, c),
{
    lemma_bytes_before_transitive(
        vstd::utf8::encode_utf8(a),
        vstd::utf8::encode_utf8(b),
        vstd::utf8::encode_utf8(c),
    );
}

/// Of two different strings one comes before the other.
pub proof fn lemma_before_total(a: Seq<char>, b: Seq<char>)
    ensures
        before(a, b) || before(b, a) || a == b,
{
    lemma_bytes_before_total(vstd::utf8::encode_utf8(a), vstd::utf8::encode_utf8(b));
    vstd::utf8::encode_utf8_decode_utf8(a);
    vstd::utf8::encode_utf8_decode_utf8(b);
}

/// Tells whether `a` comes before `b`.
pub fn comes_before(a: &str, b: &str) -> (r: bool)
    ensures
        r == before(a@, b@),
{
    let x: &[u8] = a.as_bytes();
    let y: &[u8] = b.as_bytes();
    let mut i: usize = 0;
    assert(x@.skip(0) =~= x@);
    assert(y@.skip(0) =~= y@);
    while i < x.len() && i < y.len()
        invariant
            i <= x@.len(),
            i <= y@.len(),
            bytes_before(x@.skip(i as int), y@.skip(i as int)) == before(a@, b@),
        decreases x@.len() - i,
    {
        assert(x@.skip(i as int).skip(1) =~= x@.skip(i + 1));
        assert(y@.skip(i as int).skip(1) =~= y@.skip(i + 1));
        if x[i] != y[i] {
            return x[i] < y[i];
        }
        i += 1;
    }
    i < y.len()
}

/// The map that a list of entries makes; the last entry of a key counts.
pub open spec fn map_of<T>(entries: Seq<(Seq<char>, T)>) -> Map<Seq<char>, T>
    decreases entries.len(),
{
    if entries.len() == 0 {
        Map::empty()
    } else {
        map_of(entries.drop_last()).insert(entries.last().0, entries.last().1)
    }
}

/// Each key comes before the next.
pub open spec fn in_order<T>(entries: Seq<(Seq<char>, T)>) -> bool {
    forall|i: int, j: int|
        0 <= i < j < entries.len() ==> before((#[trigger] entries[i]).0, (#[trigger] entries[j]).0)
}

/// What an ordered list maps to what.
pub proof fn lemma_map_of<T>(entries: Seq<(Seq<char>, T)>)
    requires
        in_order(entries),
    ensures
        forall|i: int|
            0 <= i < entries.len() ==> map_of(entries).contains_key((#[trigger] entries[i]).0)
                && map_of(entries)[entries[i].0] == entries[i].1,
        forall|k: Seq<char>| #[trigger]
            map_of(entries).contains_key(k) ==> exists|i: int|
                0 <= i < entries.len() && (#[trigger] entries[i]).0 == k,
        map_of(entries).dom().finite(),
        map_of(entries).len() == entries.len(),
    decreases entries.len(),
{
    if entries.len() > 0 {
        let shorter = entries.drop_last();
        lemma_map_of(shorter);
        assert forall|i: int| 0 <= i < entries.len() implies map_of(entries).contains_key(
            (#[trigger] entries[i]).0,
        ) && map_of(entries)[entries[i].0] == entries[i].1 by {
            if i < shorter.len() {
                assert(shorter[i] == entries[i]);
                lemma_before_irreflexive(entries[i].0);
            }
        }
        assert forall|k: Seq<char>| #[trigger] map_of(entries).contains_key(k) implies exists|i: int|
            0 <= i < entries.len() && (#[trigger] entries[i]).0 == k by {
            if k == entries.last().0 {
                assert(entries[entries.len() - 1].0 == k);
            } else {
                let i = choose|i: int| 0 <= i < shorter.len() && (#[trigger] shorter[i]).0 == k;
                assert(entries[i].0 == k);
            }
        }
        assert(!map_of(shorter).contains_key(entries.last().0)) by {
            if map_of(shorter).contains_key(entries.last().0) {
                let i = choose|i: int|
                    0 <= i < shorter.len() && (#[trigger] shorter[i]).0 == entries.last().0;
                assert(entries[i].0 == entries[entries.len() - 1].0);
                lemma_before_irreflexive(entries.last().0);
            }
        }
    }
}

/// A map from strings to values. Walking it meets the keys in order.
pub struct Table<V> {
    entries: Vec<(String, V)>,
}

impl<V: DeepView> Table<V> {
    /// The entries, in the order of their keys.
    pub closed spec fn listing(&self) -> Seq<(Seq<char>, V::V)> {
        Seq::new(
            self.entries@.len(),
            |i: int| (self.entries@[i].0@, self.entries@[i].1.deep_view()),
        )
    }

    pub open spec fn wf(&self) -> bool {
        in_order(self.listing())
    }
}

impl<V: DeepView> View for Table<V> {
    type V = Map<Seq<char>, V::V>;

    open spec fn view(&self) -> Map<Seq<char>, V::V> {
        map_of(self.listing())
    }
}

impl<V: DeepView> Table<V> {
    pub fn new() -> (r: Self)
        ensures
            r.wf(),
            r.listing() == Seq::<(Seq<char>, V::V)>::empty(),
            r@ == Map::<Seq<char>, V::V>::empty(),
    {
        let r = Table { entries: Vec::new() };
        assert(r.listing() =~= Seq::<(Seq<char>, V::V)>::empty());
        r
    }

    pub fn len(&self) -> (n: usize)
        ensures
            n == self.listing().len(),
    {
        self.entries.len()
    }

    /// The key of entry `i`.
    pub fn key_at(&self, i: usize) -> (r: &String)
        requires
            i < self.listing().len(),
        ensures
            r@ == self.listing()[i as int].0,
    {
        &self.entries[i].0
    }

    /// The value of entry `i`.
    pub fn value_at(&self, i: usize) -> (r: &V)
        requires
            i < self.listing().len(),
        ensures
            r.deep_view() == self.listing()[i as int].1,
    {
        &self.entries[i].1
    }

    /// The number of keys that come before `key`.
    fn position(&self, key: &str) -> (n: usize)
        requires
            self.wf(),
        ensures
            n <= self.listing().len(),
            forall|i: int| 0 <= i < n ==> before((#[trigger] self.listing()[i]).0, key@),
            forall|i: int|
                n <= i < self.listing().len() ==> !before((#[trigger] self.listing()[i]).0, key@),
    {
        let mut low: usize = 0;
        let mut high: usize = self.entries.len();
        while low < high
            invariant
                self.wf(),
                low <= high <= self.listing().len(),
                self.listing().len() == self.entries@.len(),
                forall|i: int| 0 <= i < low ==> before((#[trigger] self.listing()[i]).0, key@),
                forall|i: int|
                    high <= i < self.listing().len() ==> !before(
                        (#[trigger] self.listing()[i]).0,
                        key@,
                    ),
            decreases high - low,
        {
            let middle: usize = low + (high - low) / 2;
            let ghost mid_key = self.listing()[middle as int].0;
            if comes_before(self.entries[middle].0.as_str(), key) {
                assert forall|i: int| 0 <= i < middle + 1 implies before(
                    (#[trigger] self.listing()[i]).0,
                    key@,
                ) by {
                    if i < middle {
                        lemma_before_transitive(self.listing()[i].0, mid_key, key@);
                    }
                }
                low = middle + 1;
            } else {
                assert forall|i: int| middle <= i < self.listing().len() implies !before(
                    (#[trigger] self.listing()[i]).0,
                    key@,
                ) by {
                    if i > middle && before(self.listing()[i].0, key@) {
                        lemma_before_transitive(mid_key, self.listing()[i].0, key@);
                    }
                }
                high = middle;
            }
        }
        low
    }

    /// The value stored under `key`.
    pub fn get(&self, key: &str) -> (r: Option<&V>)
        requires
            self.wf(),
        ensures
            match r {
                Some(v) => self@.contains_key(key@) && v.deep_view() == self@[key@],
                None => !self@.contains_key(key@),
            },
    {
        let n: usize = self.position(key);
        proof {
            lemma_map_of(self.listing());
        }
        if n < self.entries.len() && !comes_before(key, self.entries[n].0.as_str()) {
            proof {
                lemma_before_total(self.listing()[n as int].0, key@);
                assert(self.listing()[n as int].0 == key@);
            }
            Some(&self.entries[n].1)
        } else {
            proof {
                if self@.contains_key(key@) {
                    let i = choose|i: int|
                        0 <= i < self.listing().len() && (#[trigger] self.listing()[i]).0 == key@;
                    lemma_before_irreflexive(key@);
                    assert(i >= n);
                    if i > n {
                        assert(before(self.listing()[n as int].0, self.listing()[i].0));
                    }
                }
            }
            None
        }
    }

    /// Stores `v` under `key`, replacing what was there.
    pub fn insert(&mut self, key: &str, v: V)
        requires
            old(self).wf(),
        ensures
            final(self).wf(),
            final(self)@ == old(self)@.insert(key@, v.deep_view()),
    {
        let n: usize = self.position(key);
        let ghost before_list = self.listing();
        proof {
            lemma_map_of(before_list);
        }
        let present: bool = n < self.entries.len() && !comes_before(
            key,
            self.entries[n].0.as_str(),
        );
        if present {
            proof {
                lemma_before_total(before_list[n as int].0, key@);
            }
            self.entries.set(n, (key.to_owned(), v));
            assert(self.listing() =~= before_list.update(n as int, (key@, v.deep_view())));
        } else {
            self.entries.insert(n, (key.to_owned(), v));
            assert(self.listing() =~= before_list.insert(n as int, (key@, v.deep_view())));
        }
        proof {
            let after = self.listing();
            let shift: int = if present {
                0
            } else {
                1
            };
            assert forall|i: int, j: int| 0 <= i < j < after.len() implies before(
                (#[trigger] after[i]).0,
                (#[trigger] after[j]).0,
            ) by {
                if !present {
                    let i0 = if i < n {
                        i
                    } else {
                        i - 1
                    };
                    let j0 = if j < n {
                        j
                    } else {
                        j - 1
                    };
                    if i == n {
                        assert(after[j] == before_list[j - 1]);
                        lemma_before_total(key@, before_list[j - 1].0);
                        if before_list[j - 1].0 == key@ {
                            if j - 1 > n {
                                assert(before(before_list[n as int].0, before_list[j - 1].0));
                            } else {
                                lemma_before_total(before_list[n as int].0, key@);
                            }
                        }
                    } else if j == n {
                        assert(after[i] == before_list[i]);
                    } else {
                        assert(after[i] == before_list[i0]);
                        assert(after[j] == before_list[j0]);
                    }
                } else {
                    assert(after[i].0 == before_list[i].0);
                    assert(after[j].0 == before_list[j].0);
                }
            }
            lemma_map_of(after);
            assert forall|k: Seq<char>| self@.contains_key(k) <==> old(self)@.insert(
                key@,
                v.deep_view(),
            ).contains_key(k) by {
                if self@.contains_key(k) {
                    let i = choose|i: int| 0 <= i < after.len() && (#[trigger] after[i]).0 == k;
                    if i != n {
                        let i0 = if i < n {
                            i
                        } else {
                            i - shift
                        };
                        assert(before_list[i0] == after[i]);
                    }
                }
                if old(self)@.contains_key(k) {
                    let i = choose|i: int|
                        0 <= i < before_list.len() && (#[trigger] before_list[i]).0 == k;
                    let i1 = if i < n {
                        i
                    } else {
                        i + shift
                    };
                    assert(after[i1].0 == before_list[i].0);
                }
                assert(after[n as int].0 == key@);
            }
            assert forall|k: Seq<char>| #[trigger] self@.contains_key(k) implies self@[k] == old(
                self,
            )@.insert(key@, v.deep_view())[k] by {
                let i = choose|i: int| 0 <= i < after.len() && (#[trigger] after[i]).0 == k;
                if i != n {
                    let i0 = if i < n {
                        i
                    } else {
                        i - shift
                    };
                    assert(before_list[i0] == after[i]);
                    if k == key@ {
                        assert(before(after[i].0, after[n as int].0) || before(
                            after[n as int].0,
                            after[i].0,
                        ));
                        lemma_before_irreflexive(key@);
                    }
                }
            }
            assert(self@ =~= old(self)@.insert(key@, v.deep_view()));
        }
    }
}

/// Two ordered lists that make the same map are the same list.
pub proof fn law_order_fixes_the_listing<T>(
    left: Seq<(Seq<char>, T)>,
    right: Seq<(Seq<char>, T)>,
)
    requires
        in_order(left),
        in_order(right),
        map_of(left) == map_of(right),
    ensures
        left == right,
    decreases left.len(),
{
    lemma_map_of(left);
    lemma_map_of(right);
    if left.len() == 0 {
        assert(left =~= right);
    } else {
        let n = left.len() - 1;
        let a = left.last();
        let b = right.last();
        assert(left[n] == a && right[n] == b);
        assert(map_of(right).contains_key(a.0));
        assert(map_of(left).contains_key(b.0));
        let i = choose|i: int| 0 <= i < right.len() && (#[trigger] right[i]).0 == a.0;
        let j = choose|j: int| 0 <= j < left.len() && (#[trigger] left[j]).0 == b.0;
        if i < n {
            assert(before(right[i].0, right[n].0));
            if j < n {
                assert(before(left[j].0, left[n].0));
                lemma_before_transitive(a.0, b.0, a.0);
            }
            lemma_before_irreflexive(a.0);
        }
        assert(a.0 == b.0);
        assert(a == b);
        let l = left.drop_last();
        let r = right.drop_last();
        lemma_map_of(l);
        lemma_map_of(r);
        assert(!map_of(l).contains_key(a.0)) by {
            if map_of(l).contains_key(a.0) {
                let k = choose|k: int| 0 <= k < l.len() && (#[trigger] l[k]).0 == a.0;
                assert(before(left[k].0, left[n].0));
                lemma_before_irreflexive(a.0);
            }
        }
        assert(!map_of(r).contains_key(a.0)) by {
            if map_of(r).contains_key(a.0) {
                let k = choose|k: int| 0 <= k < r.len() && (#[trigger] r[k]).0 == a.0;
                assert(before(right[k].0, right[n].0));
                lemma_before_irreflexive(a.0);
            }
        }
        assert(map_of(l) =~= map_of(left).remove(a.0));
        assert(map_of(r) =~= map_of(right).remove(a.0));
        law_order_fixes_the_listing(l, r);
        assert(left =~= l.push(a));
        assert(right =~= r.push(a));
    }
}

/// The entries of `m`, in the order of their keys.
pub open spec fn ordered<T>(m: Map<Seq<char>, T>) -> Seq<(Seq<char>, T)> {
    choose|l: Seq<(Seq<char>, T)>| in_order(l) && #[trigger] map_of(l) == m
}

/// An ordered list is the list of the entries of its map.
pub proof fn lemma_ordered<T>(l: Seq<(Seq<char>, T)>)
    requires
        in_order(l),
    ensures
        ordered(map_of(l)) == l,
{
    let m = map_of(l);
    let k = ordered(m);
    assert(in_order(l) && map_of(l) == m);
    law_order_fixes_the_listing(k, l);
}

/// A value that can be copied without changing what it stands for.
pub trait Duplicate: DeepView + Sized {
    fn duplicate(&self) -> (r: Self)
        ensures
            r.deep_view() == self.deep_view(),
    ;
}

impl Duplicate for u64 {
    fn duplicate(&self) -> (r: Self) {
        *self
    }
}

impl Duplicate for Vec<u32> {
    fn duplicate(&self) -> (r: Self) {
        let mut r: Vec<u32> = Vec::new();
        let mut i: usize = 0;
        while i < self.len()
            invariant
                i <= self@.len(),
                r@ == self@.take(i as int),
            decreases self@.len() - i,
        {
            r.push(self[i]);
            i += 1;
            assert(r@ =~= self@.take(i as int));
        }
        assert(r@ =~= self@);
        r
    }
}

impl Duplicate for Vec<Vec<u32>> {
    fn duplicate(&self) -> (r: Self) {
        let mut r: Vec<Vec<u32>> = Vec::new();
        let mut i: usize = 0;
        while i < self.len()
            invariant
                i <= self@.len(),
                r@.len() == i,
                forall|j: int| 0 <= j < i ==> (#[trigger] r@[j]).deep_view() == self@[j].deep_view(),
            decreases self@.len() - i,
        {
            r.push(self[i].duplicate());
            i += 1;
        }
        assert(r.deep_view() =~= self.deep_view());
        r
    }
}

impl Duplicate for Vec<String> {
    fn duplicate(&self) -> (r: Self) {
        let mut r: Vec<String> = Vec::new();
        let mut i: usize = 0;
        while i < self.len()
            invariant
                i <= self@.len(),
                r@.len() == i,
                forall|j: int| 0 <= j < i ==> (#[trigger] r@[j])@ == self@[j]@,
            decreases self@.len() - i,
        {
            r.push(self[i].clone());
            i += 1;
        }
        assert(r.deep_view() =~= self.deep_view());
        r
    }
}

/// The key `k` inside the scope `prefix`.
pub open spec fn scoped_key(prefix: Seq<char>, k: Seq<char>) -> Seq<char> {
    prefix + seq!['.'] + k
}

/// What stands behind the prefix and the dot.
pub open spec fn behind(prefix: Seq<char>, k: Seq<char>) -> Seq<char> {
    k.skip(prefix.len() as int + 1)
}

/// `k` lies in the scope `prefix`.
pub open spec fn in_scope(prefix: Seq<char>, k: Seq<char>) -> bool {
    &&& k.len() > prefix.len()
    &&& k == scoped_key(prefix, behind(prefix, k))
}

/// `m` with every key moved into the scope `prefix`.
pub open spec fn prefixed<T>(m: Map<Seq<char>, T>, prefix: Seq<char>) -> Map<Seq<char>, T> {
    Map::new(
        |k: Seq<char>| in_scope(prefix, k) && m.contains_key(behind(prefix, k)),
        |k: Seq<char>| m[behind(prefix, k)],
    )
}

/// The keys of `m` in the scope `prefix`, with the prefix taken off.
pub open spec fn unprefixed<T>(m: Map<Seq<char>, T>, prefix: Seq<char>) -> Map<Seq<char>, T> {
    Map::new(
        |k: Seq<char>| m.contains_key(scoped_key(prefix, k)),
        |k: Seq<char>| m[scoped_key(prefix, k)],
    )
}

/// Different keys stay different inside a scope.
pub proof fn lemma_scoped_key(prefix: Seq<char>, k: Seq<char>)
    ensures
        in_scope(prefix, scoped_key(prefix, k)),
        behind(prefix, scoped_key(prefix, k)) == k,
{
    assert(behind(prefix, scoped_key(prefix, k)) =~= k);
}

/// What was put into a scope is found there, over what the scope held before.
pub proof fn law_scope_gives_back<T>(
    m: Map<Seq<char>, T>,
    part: Map<Seq<char>, T>,
    prefix: Seq<char>,
)
    ensures
        unprefixed(m.union_prefer_right(prefixed(part, prefix)), prefix) == unprefixed(
            m,
            prefix,
        ).union_prefer_right(part),
{
    let merged = m.union_prefer_right(prefixed(part, prefix));
    assert forall|k: Seq<char>| #![trigger scoped_key(prefix, k)]
        prefixed(part, prefix).contains_key(scoped_key(prefix, k)) == part.contains_key(k)
            && (part.contains_key(k) ==> prefixed(part, prefix)[scoped_key(prefix, k)]
            == part[k]) by {
        lemma_scoped_key(prefix, k);
    }
    assert(unprefixed(merged, prefix) =~= unprefixed(m, prefix).union_prefer_right(part));
}

/// The key `k` inside the scope `prefix`.
pub fn key_in_scope(prefix: &str, k: &str) -> (r: String)
    ensures
        r@ == scoped_key(prefix@, k@),
{
    let mut r: String = prefix.to_owned();
    r.push('.');
    r.append(k);
    assert(r@ =~= scoped_key(prefix@, k@));
    r
}

impl<V: Duplicate> Table<V> {
    /// Takes in the entries of `other`, each key moved into the scope `prefix`.
    pub fn absorb(&mut self, prefix: &str, other: Table<V>)
        requires
            old(self).wf(),
            other.wf(),
        ensures
            final(self).wf(),
            final(self)@ == old(self)@.union_prefer_right(prefixed(other@, prefix@)),
    {
        let ghost all = other.listing();
        let n: usize = other.entries.len();
        let mut i: usize = 0;
        proof {
            assert(prefixed(map_of(all.take(0)), prefix@) =~= Map::empty());
            assert(self@ =~= old(self)@.union_prefer_right(
                prefixed(map_of(all.take(0)), prefix@),
            ));
        }
        while i < n
            invariant
                i <= n == all.len() == other.entries@.len(),
                all == other.listing(),
                self.wf(),
                self@ == old(self)@.union_prefer_right(
                    prefixed(map_of(all.take(i as int)), prefix@),
                ),
            decreases n - i,
        {
            let key: String = key_in_scope(prefix, other.entries[i].0.as_str());
            let ghost before_map = map_of(all.take(i as int));
            self.insert(key.as_str(), other.entries[i].1.duplicate());
            i += 1;
            proof {
                let k = all[i - 1].0;
                let v = all[i - 1].1;
                assert(all.take(i as int).drop_last() =~= all.take(i - 1));
                lemma_scoped_key(prefix@, k);
                assert forall|q: Seq<char>| in_scope(prefix@, q) && behind(prefix@, q) == k
                    implies q == key@ by {}
                assert(prefixed(before_map.insert(k, v), prefix@) =~= prefixed(
                    before_map,
                    prefix@,
                ).insert(key@, v));
                assert(self@ =~= old(self)@.union_prefer_right(
                    prefixed(map_of(all.take(i as int)), prefix@),
                ));
            }
        }
        assert(all.take(i as int) =~= all);
    }

    /// The entries in the scope `prefix`, with the prefix taken off.
    pub fn scoped(&self, prefix: &str) -> (r: Table<V>)
        requires
            self.wf(),
        ensures
            r.wf(),
            r@ == unprefixed(self@, prefix@),
    {
        let ghost all = self.listing();
        let head: Vec<char> = crate::text::chars_of(prefix);
        let n: usize = self.entries.len();
        let mut r: Table<V> = Table::new();
        let mut i: usize = 0;
        assert(unprefixed(map_of(all.take(0)), prefix@) =~= Map::empty());
        while i < n
            invariant
                i <= n == all.len() == self.entries@.len(),
                all == self.listing(),
                head@ == prefix@,
                r.wf(),
                r@ == unprefixed(map_of(all.take(i as int)), prefix@),
            decreases n - i,
        {
            let ghost before_map = map_of(all.take(i as int));
            let key: Vec<char> = crate::text::chars_of(self.entries[i].0.as_str());
            let inside: bool = starts_scope(&key, &head);
            if inside {
                let end: usize = key.len();
                let rest: String = crate::text::string_of(&key, head.len() + 1, end);
                proof {
                    assert(rest@ =~= behind(head@, key@));
                }
                r.insert(rest.as_str(), self.entries[i].1.duplicate());
            }
            i += 1;
            proof {
                let k = all[i - 1].0;
                let v = all[i - 1].1;
                assert(all.take(i as int).drop_last() =~= all.take(i - 1));
                let after_map = before_map.insert(k, v);
                if inside {
                    let rest = behind(prefix@, k);
                    assert(k == scoped_key(prefix@, rest));
                    assert forall|q: Seq<char>| #[trigger] scoped_key(prefix@, q) == k implies q == rest by {
                        lemma_scoped_key(prefix@, q);
                    }
                    assert(unprefixed(after_map, prefix@) =~= unprefixed(
                        before_map,
                        prefix@,
                    ).insert(rest, v));
                } else {
                    assert forall|q: Seq<char>| #[trigger] scoped_key(prefix@, q) != k by {
                        lemma_scoped_key(prefix@, q);
                    }
                    assert(unprefixed(after_map, prefix@) =~= unprefixed(before_map, prefix@));
                }
            }
        }
        assert(all.take(i as int) =~= all);
        r
    }
}

/// Tells whether `key` lies in the scope `prefix`.
fn starts_scope(key: &Vec<char>, prefix: &Vec<char>) -> (r: bool)
    ensures
        r == in_scope(prefix@, key@),
{
    if key.len() <= prefix.len() || key[prefix.len()] != '.' {
        return false;
    }
    let mut i: usize = 0;
    while i < prefix.len()
        invariant
            i <= prefix@.len() < key@.len(),
            forall|j: int| 0 <= j < i ==> key@[j] == prefix@[j],
        decreases prefix@.len() - i,
    {
        if key[i] != prefix[i] {
            assert(scoped_key(prefix@, behind(prefix@, key@))[i as int] == prefix@[i as int]);
            return false;
        }
        i += 1;
    }
    assert(key@ =~= scoped_key(prefix@, behind(prefix@, key@)));
    true
}

} // verus!
