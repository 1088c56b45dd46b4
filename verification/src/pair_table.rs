//! A hash table keyed by ordered pairs of strings.

use vstd::hash_map::StringHashMap;
use vstd::prelude::*;

verus! {

/// An ordered pair of symbols.
pub type Pair = (Seq<char>, Seq<char>);

/// A map from pairs of strings to `usize`.
///
/// The first string selects a row, the second an entry of that row, so that a
/// look-up borrows both strings and allocates nothing.
pub struct PairTable {
    row_of: StringHashMap<usize>,
    rows: Vec<StringHashMap<usize>>,
}

impl View for PairTable {
    type V = Map<Pair, usize>;

    closed spec fn view(&self) -> Map<Pair, usize> {
        Map::new(
            |p: Pair|
                self.row_of@.contains_key(p.0)
                    && self.rows@[self.row_of@[p.0] as int]@.contains_key(p.1),
            |p: Pair| self.rows@[self.row_of@[p.0] as int]@[p.1],
        )
    }
}

impl PairTable {
    /// Every first string has a row of its own.
    pub closed spec fn wf(&self) -> bool {
        &&& forall|a: Seq<char>| #[trigger]
            self.row_of@.contains_key(a) ==> self.row_of@[a] < self.rows@.len()
        &&& forall|a: Seq<char>, b: Seq<char>|
            #![trigger self.row_of@[a], self.row_of@[b]]
            self.row_of@.contains_key(a) && self.row_of@.contains_key(b) && self.row_of@[a]
                == self.row_of@[b] ==> a == b
    }

    pub fn new() -> (r: Self)
        ensures
            r.wf(),
            r@ == Map::<Pair, usize>::empty(),
    {
        let r = PairTable { row_of: StringHashMap::new(), rows: Vec::new() };
        assert(r@ =~= Map::<Pair, usize>::empty());
        r
    }

    /// The value stored for `(a, b)`.
    pub fn get(&self, a: &str, b: &str) -> (r: Option<usize>)
        requires
            self.wf(),
        ensures
            r == (if self@.contains_key((a@, b@)) {
                Some(self@[(a@, b@)])
            } else {
                None
            }),
    {
        match self.row_of.get(a) {
            None => None,
            Some(i) => match self.rows[*i].get(b) {
                None => None,
                Some(v) => Some(*v),
            },
        }
    }

    /// Stores `v` for `(a, b)`, replacing what was there.
    pub fn insert(&mut self, a: &str, b: &str, v: usize)
        requires
            old(self).wf(),
        ensures
            final(self).wf(),
            final(self)@ == old(self)@.insert((a@, b@), v),
    {
        let found: Option<usize> = match self.row_of.get(a) {
            None => None,
            Some(i) => Some(*i),
        };
        match found {
            Some(i) => {
                self.rows[i].insert(b.to_owned(), v);
            },
            None => {
                let i: usize = self.rows.len();
                let mut row: StringHashMap<usize> = StringHashMap::new();
                row.insert(b.to_owned(), v);
                self.rows.push(row);
                self.row_of.insert(a.to_owned(), i);
            },
        }
        assert(self@ =~= old(self)@.insert((a@, b@), v));
    }
}

} // verus!
