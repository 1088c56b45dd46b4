//! What attention keeps of the tokens that it has already seen.

use crate::matrix::{self, Grid, Matrix};
use vstd::prelude::*;

verus! {

/// The keys and values of the tokens seen so far, one row each, at most
/// `capacity` of them.
pub struct KvCache<T> {
    k: Matrix<T>,
    v: Matrix<T>,
    cur_len: usize,
    capacity: usize,
    d_kv_model: usize,
}

/// What a cache holds.
#[verifier::ext_equal]
pub struct History<T> {
    pub keys: Seq<Seq<T>>,
    pub values: Seq<Seq<T>>,
    pub capacity: nat,
    pub width: nat,
}

impl<T> History<T> {
    /// As many keys as values, none too many, and all of one width.
    pub open spec fn wf(self) -> bool {
        &&& self.keys.len() == self.values.len()
        &&& self.keys.len() <= self.capacity
        &&& forall|i: int| 0 <= i < self.keys.len() ==> (#[trigger] self.keys[i]).len() == self.width
        &&& forall|i: int|
            0 <= i < self.values.len() ==> (#[trigger] self.values[i]).len() == self.width
    }
}

/// The matrix with one more row.
proof fn lemma_row_added<T>(before: Grid<T>, after: Grid<T>, row: Seq<T>)
    requires
        before.wf(),
        after.cols == before.cols,
        after.rows == before.rows + 1,
        row.len() == before.cols,
        after.data == before.data + row,
    ensures
        after.wf(),
        matrix::rows_of(after) == matrix::rows_of(before).push(row),
{
    matrix::lemma_next_row(before.rows as int, before.cols as int);
    assert forall|i: int| 0 <= i < after.rows implies #[trigger] matrix::rows_of(after)[i]
        == matrix::rows_of(before).push(row)[i] by {
        if i < before.rows {
            matrix::lemma_row_end(i, before.rows as int, before.cols as int);
            assert(after.row(i) =~= before.row(i));
        } else {
            assert(after.row(i) =~= row);
        }
    }
    assert(matrix::rows_of(after) =~= matrix::rows_of(before).push(row));
}

impl<T> KvCache<T> {
    /// The two matrices fit the numbers beside them.
    pub closed spec fn wf(&self) -> bool {
        &&& self.k@.wf()
        &&& self.v@.wf()
        &&& self.k@.rows == self.cur_len
        &&& self.v@.rows == self.cur_len
        &&& self.k@.cols == self.d_kv_model
        &&& self.v@.cols == self.d_kv_model
        &&& self.cur_len <= self.capacity
    }

    /// The number of tokens seen so far.
    pub fn cur_len(&self) -> (r: usize)
        requires
            self.wf(),
        ensures
            r == self@.keys.len(),
    {
        self.cur_len
    }

    /// The number of tokens for which there is room.
    pub fn capacity(&self) -> (r: usize)
        ensures
            r == self@.capacity,
    {
        self.capacity
    }

    /// The length of a key and of a value.
    pub fn d_kv_model(&self) -> (r: usize)
        ensures
            r == self@.width,
    {
        self.d_kv_model
    }

    /// The keys, one row for each token.
    pub fn k(&self) -> (r: &Matrix<T>)
        requires
            self.wf(),
        ensures
            r@.wf(),
            r@.rows == self@.keys.len(),
            r@.cols == self@.width,
            matrix::rows_of(r@) == self@.keys,
    {
        &self.k
    }

    /// The values, one row for each token.
    pub fn v(&self) -> (r: &Matrix<T>)
        requires
            self.wf(),
        ensures
            r@.wf(),
            r@.rows == self@.values.len(),
            r@.cols == self@.width,
            matrix::rows_of(r@) == self@.values,
    {
        &self.v
    }
}

impl<T> View for KvCache<T> {
    type V = History<T>;

    closed spec fn view(&self) -> History<T> {
        History {
            keys: matrix::rows_of(self.k@),
            values: matrix::rows_of(self.v@),
            capacity: self.capacity as nat,
            width: self.d_kv_model as nat,
        }
    }
}

impl<T: Copy> KvCache<T> {
    /// An empty cache.
    pub fn new(capacity: usize, d_kv_model: usize) -> (r: Self)
        ensures
            r.wf(),
            r@ == (History::<T> {
                keys: Seq::empty(),
                values: Seq::empty(),
                capacity: capacity as nat,
                width: d_kv_model as nat,
            }),
    {
        let r = KvCache {
            k: Matrix::from_flat(Vec::new(), 0, d_kv_model),
            v: Matrix::from_flat(Vec::new(), 0, d_kv_model),
            cur_len: 0,
            capacity,
            d_kv_model,
        };
        assert(r@.keys =~= Seq::empty());
        assert(r@.values =~= Seq::empty());
        r
    }

    /// Adds the key and the value of one more token.
    pub fn append(&mut self, k_row: &[T], v_row: &[T])
        requires
            old(self).wf(),
            old(self)@.keys.len() < old(self)@.capacity,
            k_row@.len() == old(self)@.width,
            v_row@.len() == old(self)@.width,
        ensures
            final(self).wf(),
            final(self)@ == (History {
                keys: old(self)@.keys.push(k_row@),
                values: old(self)@.values.push(v_row@),
                ..old(self)@
            }),
    {
        let ghost before_k = self.k@;
        let ghost before_v = self.v@;
        let new_len: usize = self.cur_len + 1;
        proof {
            matrix::lemma_next_row(self.cur_len as int, self.d_kv_model as int);
        }
        let mut new_k: Vec<T> = Vec::new();
        matrix::extend_with(&mut new_k, self.k.data());
        matrix::extend_with(&mut new_k, k_row);
        assert(new_k@ =~= before_k.data + k_row@);
        let mut new_v: Vec<T> = Vec::new();
        matrix::extend_with(&mut new_v, self.v.data());
        matrix::extend_with(&mut new_v, v_row);
        assert(new_v@ =~= before_v.data + v_row@);
        self.k = Matrix::from_flat(new_k, new_len, self.d_kv_model);
        self.v = Matrix::from_flat(new_v, new_len, self.d_kv_model);
        self.cur_len = new_len;
        proof {
            lemma_row_added(before_k, self.k@, k_row@);
            lemma_row_added(before_v, self.v@, v_row@);
        }
    }

    /// Forgets all tokens. The room stays.
    pub fn reset(&mut self)
        requires
            old(self).wf(),
        ensures
            final(self).wf(),
            final(self)@ == (History::<T> {
                keys: Seq::empty(),
                values: Seq::empty(),
                ..old(self)@
            }),
    {
        self.k = Matrix::from_flat(Vec::new(), 0, self.d_kv_model);
        self.v = Matrix::from_flat(Vec::new(), 0, self.d_kv_model);
        self.cur_len = 0;
        assert(self@.keys =~= Seq::empty());
        assert(self@.values =~= Seq::empty());
    }
}

/// In every cache there are as many keys as values, no more than there is room
/// for, and all have the width of the cache.
pub proof fn law_cache_is_consistent<T>(cache: KvCache<T>)
    requires
        cache.wf(),
    ensures
        cache@.wf(),
{
    assert forall|i: int| 0 <= i < cache@.keys.len() implies (#[trigger] cache@.keys[i]).len()
        == cache@.width by {
        matrix::lemma_row_end(i, cache.k@.rows as int, cache.k@.cols as int);
    }
    assert forall|i: int| 0 <= i < cache@.values.len() implies (#[trigger] cache@.values[i]).len()
        == cache@.width by {
        matrix::lemma_row_end(i, cache.v@.rows as int, cache.v@.cols as int);
    }
}

} // verus!
