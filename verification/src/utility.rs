//! Helpers for matrices that are lists of rows.

use crate::matrix::{self, Grid, Matrix};
use vstd::prelude::*;

verus! {

/// Rows and columns exchanged. The first row says how many columns there are.
pub fn transpose<T: Copy + Default + Send + Sync>(a: &[Vec<T>]) -> (r: Vec<Vec<T>>)
    requires
        a@.len() > 0,
        forall|i: int| 0 <= i < a@.len() ==> (#[trigger] a@[i])@.len() >= a@[0]@.len(),
    ensures
        r@.len() == a@[0]@.len(),
        forall|j: int| 0 <= j < r@.len() ==> (#[trigger] r@[j])@.len() == a@.len(),
        forall|i: int, j: int|
            0 <= i < a@.len() && 0 <= j < r@.len() ==> #[trigger] r@[j]@[i] == a@[i]@[j],
{
    let m: usize = a.len();
    let n: usize = a[0].len();
    if n == 0 {
        return Vec::new();
    }
    let mut data: Vec<T> = Vec::new();
    let mut i: usize = 0;
    while i < m
        invariant
            i <= m,
            m == a@.len(),
            n == a@[0]@.len(),
            n > 0,
            forall|k: int| 0 <= k < a@.len() ==> (#[trigger] a@[k])@.len() >= n,
            data@.len() == i * n,
            forall|k: int, j: int|
                0 <= k < i && 0 <= j < n ==> data@[#[trigger] (k * n + j)] == #[trigger] a@[k]@[j],
        decreases m - i,
    {
        let ghost before = data@;
        let row: &Vec<T> = &a[i];
        matrix::extend_with(&mut data, vstd::slice::slice_subrange(row.as_slice(), 0, n));
        proof {
            matrix::lemma_next_row(i as int, n as int);
            assert forall|k: int, j: int| 0 <= k < i + 1 && 0 <= j < n implies data@[#[trigger] (k
                * n + j)] == #[trigger] a@[k]@[j] by {
                if k < i {
                    matrix::lemma_place(k, j, i as int, n as int);
                }
            }
        }
        i += 1;
    }
    let whole: Matrix<T> = Matrix::from_flat(data, m, n);
    let turned: Matrix<T> = whole.transpose();
    proof {
        matrix::lemma_of(n as nat, m as nat, |x: int, y: int| whole@.at(y, x));
    }
    let r: Vec<Vec<T>> = turned.to_jagged();
    proof {
        assert(matrix::row_views(r@) == matrix::rows_of(turned@));
        assert(r@.len() == n) by {
            assert(matrix::row_views(r@).len() == r@.len());
        }
        assert forall|j: int| 0 <= j < n implies (#[trigger] r@[j])@ == turned@.row(j) by {
            assert(matrix::row_views(r@)[j] == matrix::rows_of(turned@)[j]);
        }
        assert forall|j: int| 0 <= j < n implies (#[trigger] r@[j])@.len() == m by {
            matrix::lemma_row_end(j, n as int, m as int);
        }
        assert forall|i: int, j: int| 0 <= i < m && 0 <= j < n implies #[trigger] r@[j]@[i]
            == a@[i]@[j] by {
            matrix::lemma_row_end(j, n as int, m as int);
            assert(r@[j]@[i] == turned@.at(j, i));
            assert(turned@.at(j, i) == whole@.at(i, j));
            assert(data@[i * n + j] == a@[i]@[j]);
        }
    }
    r
}

} // verus!
