//! Matrices in one block of memory, row by row.
//!
//! A matrix holds elements of any type that can be copied. Here elements are
//! only moved; arithmetic on them belongs to the user of the matrix.

use rayon::iter::{IndexedParallelIterator, ParallelIterator};
use rayon::slice::ParallelSliceMut;
use vstd::prelude::*;

verus! {

/// What a `Matrix` stands for.
#[verifier::ext_equal]
pub struct Grid<T> {
    pub data: Seq<T>,
    pub rows: nat,
    pub cols: nat,
}

impl<T> Grid<T> {
    /// There are as many elements as the shape says.
    pub open spec fn wf(self) -> bool {
        self.data.len() == self.rows * self.cols
    }

    /// The element in row `i` and column `j`.
    pub open spec fn at(self, i: int, j: int) -> T {
        self.data[i * self.cols + j]
    }

    /// Row `i`.
    pub open spec fn row(self, i: int) -> Seq<T> {
        self.data.subrange(i * self.cols, i * self.cols + self.cols)
    }

    /// The matrix with the given elements.
    pub open spec fn of(rows: nat, cols: nat, f: spec_fn(int, int) -> T) -> Self {
        Grid {
            data: Seq::new(rows * cols, |k: int| f(k / (cols as int), k % (cols as int))),
            rows,
            cols,
        }
    }

    /// Rows and columns exchanged.
    pub open spec fn transposed(self) -> Self {
        Grid::of(self.cols, self.rows, |i: int, j: int| self.at(j, i))
    }

    /// The block of columns `h * width` to `(h + 1) * width`.
    pub open spec fn column_block(self, h: int, width: nat) -> Self {
        Grid::of(self.rows, width, |i: int, j: int| self.at(i, h * width + j))
    }
}

/// Row and column give a place within the elements.
pub proof fn lemma_place(i: int, j: int, rows: int, cols: int)
    requires
        0 <= i < rows,
        0 <= j < cols,
    ensures
        0 <= i * cols,
        i * cols + j < rows * cols,
        i * cols + cols <= rows * cols,
{
    assert(0 <= i * cols) by (nonlinear_arith)
        requires
            0 <= i,
            0 < cols,
    ;
    assert(i * cols + cols <= rows * cols) by (nonlinear_arith)
        requires
            0 <= i < rows,
            0 < cols,
    ;
}

/// A place gives row and column back.
pub proof fn lemma_row_and_column(i: int, j: int, cols: int)
    requires
        0 <= i,
        0 <= j < cols,
    ensures
        (i * cols + j) / cols == i,
        (i * cols + j) % cols == j,
{
    vstd::arithmetic::div_mod::lemma_fundamental_div_mod_converse(i * cols + j, cols, i, j);
}

/// Every place is that of some row and column.
pub proof fn lemma_place_splits(k: int, rows: int, cols: int)
    requires
        0 <= k < rows * cols,
        0 <= rows,
        0 <= cols,
    ensures
        0 < cols,
        0 <= k / cols < rows,
        0 <= k % cols < cols,
        (k / cols) * cols + k % cols == k,
{
    assert(0 < cols) by (nonlinear_arith)
        requires
            0 <= k < rows * cols,
            0 <= cols,
    ;
    vstd::arithmetic::div_mod::lemma_fundamental_div_mod(k, cols);
    vstd::arithmetic::mul::lemma_mul_is_commutative(cols, k / cols);
    vstd::arithmetic::div_mod::lemma_mod_bound(k, cols);
    assert(0 <= k / cols < rows) by (nonlinear_arith)
        requires
            0 <= k < rows * cols,
            0 < cols,
            (k / cols) * cols + k % cols == k,
            0 <= k % cols < cols,
    ;
}

/// The elements of a matrix made of a function are those of the function.
pub proof fn lemma_of<T>(rows: nat, cols: nat, f: spec_fn(int, int) -> T)
    ensures
        Grid::of(rows, cols, f).wf(),
        forall|i: int, j: int|
            0 <= i < rows && 0 <= j < cols ==> #[trigger] Grid::of(rows, cols, f).at(i, j) == f(
                i,
                j,
            ),
{
    let g = Grid::of(rows, cols, f);
    assert forall|i: int, j: int| 0 <= i < rows && 0 <= j < cols implies #[trigger] g.at(i, j) == f(
        i,
        j,
    ) by {
        lemma_place(i, j, rows as int, cols as int);
        lemma_row_and_column(i, j, cols as int);
    }
}

/// Matrices of one shape with the same elements are the same.
pub proof fn lemma_same_elements<T>(a: Grid<T>, b: Grid<T>)
    requires
        a.wf(),
        b.wf(),
        a.rows == b.rows,
        a.cols == b.cols,
        forall|i: int, j: int|
            0 <= i < a.rows && 0 <= j < a.cols ==> #[trigger] a.at(i, j) == b.at(i, j),
    ensures
        a == b,
{
    assert forall|k: int| 0 <= k < a.data.len() implies a.data[k] == b.data[k] by {
        lemma_place_splits(k, a.rows as int, a.cols as int);
        assert(a.at(k / (a.cols as int), k % (a.cols as int)) == b.at(
            k / (a.cols as int),
            k % (a.cols as int),
        ));
    }
    assert(a.data =~= b.data);
}

/// Transposing twice changes nothing.
pub proof fn law_transposing_twice_is_identity<T>(g: Grid<T>)
    requires
        g.wf(),
    ensures
        g.transposed().transposed() == g,
{
    let t = g.transposed();
    lemma_of(g.cols, g.rows, |i: int, j: int| g.at(j, i));
    lemma_of(t.cols, t.rows, |i: int, j: int| t.at(j, i));
    assert forall|i: int, j: int| 0 <= i < g.rows && 0 <= j < g.cols implies #[trigger] g.at(i, j)
        == t.transposed().at(i, j) by {
        assert(t.at(j, i) == g.at(i, j));
        assert(t.transposed().at(i, j) == t.at(j, i));
    }
    lemma_same_elements(g, t.transposed());
}

/// A matrix of elements that can be copied.
#[derive(Debug)]
pub struct Matrix<T> {
    data: Vec<T>,
    rows: usize,
    cols: usize,
}

impl<T> View for Matrix<T> {
    type V = Grid<T>;

    closed spec fn view(&self) -> Grid<T> {
        Grid { data: self.data@, rows: self.rows as nat, cols: self.cols as nat }
    }
}

/// Fills row `j` of the transposed matrix.
fn transpose_row<T: Copy>(data: &Vec<T>, m: usize, n: usize, j: usize, out: &mut [T])
    requires
        data@.len() == m * n,
        j < n,
        old(out)@.len() == m,
    ensures
        final(out)@ == Seq::new(m as nat, |i: int| data@[i * n + j]),
{
    let total: usize = data.len();
    let mut i: usize = 0;
    while i < m
        invariant
            i <= m,
            data@.len() == m * n,
            total == data@.len(),
            j < n,
            out@.len() == m,
            forall|k: int| 0 <= k < i ==> out@[k] == data@[k * n + j],
        decreases m - i,
    {
        proof {
            lemma_place(i as int, j as int, m as int, n as int);
        }
        out[i] = data[i * n + j];
        i += 1;
    }
    assert(out@ =~= Seq::new(m as nat, |i: int| data@[i * n + j]));
}

/// `transpose_row` for every row of the output, spread over threads by
/// `par_chunks_mut`, `enumerate` and `for_each` of rayon.
///
/// Believed: `par_chunks_mut(m)` cuts the slice into its consecutive pieces of
/// `m` elements, `enumerate` numbers them from 0, and `for_each` calls the
/// closure once with each. A piece of no elements panics, hence `m > 0`.
#[verifier::external_body]
fn transpose_in_parallel<T: Copy + Send + Sync>(
    data: &Vec<T>,
    m: usize,
    n: usize,
    out: &mut Vec<T>,
)
    requires
        data@.len() == m * n,
        old(out)@.len() == m * n,
        m > 0,
    ensures
        final(out)@ == Seq::new(
            (n * m) as nat,
            |k: int| data@[(k % (m as int)) * n + k / (m as int)],
        ),
{
    out.par_chunks_mut(m).enumerate().for_each(|(j, row)| transpose_row(data, m, n, j, row));
}

/// `rows * cols` copies of one value.
fn repeated<T: Copy>(value: T, count: usize) -> (v: Vec<T>)
    ensures
        v@ == Seq::new(count as nat, |k: int| value),
{
    let mut v: Vec<T> = Vec::new();
    while v.len() < count
        invariant
            v@.len() <= count,
            forall|k: int| 0 <= k < v@.len() ==> v@[k] == value,
        decreases count - v@.len(),
    {
        v.push(value);
    }
    assert(v@ =~= Seq::new(count as nat, |k: int| value));
    v
}

/// Copies `values` behind what is already there.
pub fn extend_with<T: Copy>(v: &mut Vec<T>, values: &[T])
    ensures
        final(v)@ == old(v)@ + values@,
{
    let n: usize = values.len();
    let mut i: usize = 0;
    while i < n
        invariant
            i <= n,
            n == values@.len(),
            v@ == old(v)@ + values@.take(i as int),
        decreases n - i,
    {
        v.push(values[i]);
        i += 1;
        assert(values@.take(i as int) =~= values@.take(i - 1).push(values@[i - 1]));
    }
    assert(values@.take(n as int) =~= values@);
}

impl<T: Copy> Clone for Matrix<T> {
    fn clone(&self) -> (r: Self)
        ensures
            r@ == self@,
    {
        let mut data: Vec<T> = Vec::new();
        extend_with(&mut data, self.data.as_slice());
        assert(data@ =~= self.data@);
        Matrix { data, rows: self.rows, cols: self.cols }
    }
}

impl<T> Default for Matrix<T> {
    /// The matrix without rows and columns.
    fn default() -> (r: Self)
        ensures
            r@ == (Grid::<T> { data: Seq::empty(), rows: 0, cols: 0 }),
    {
        Matrix { data: Vec::new(), rows: 0, cols: 0 }
    }
}

impl<T: Copy + Default> Matrix<T> {
    /// A matrix that holds the default element everywhere.
    pub fn zeros(rows: usize, cols: usize) -> (r: Self)
        requires
            rows * cols <= usize::MAX,
        ensures
            r@.wf(),
            r@.rows == rows,
            r@.cols == cols,
            exists|zero: T|
                call_ensures(T::default, (), zero) && r@.data == Seq::new(
                    (rows * cols) as nat,
                    |k: int| zero,
                ),
    {
        let zero: T = T::default();
        Matrix { data: repeated(zero, rows * cols), rows, cols }
    }

    /// Gives the matrix a new shape. Elements keep their place in memory; those
    /// that are new are the default element.
    pub fn ensure_shape(&mut self, rows: usize, cols: usize)
        requires
            rows * cols <= usize::MAX,
        ensures
            final(self)@.wf(),
            final(self)@.rows == rows,
            final(self)@.cols == cols,
            forall|k: int|
                0 <= k < rows * cols && k < old(self)@.data.len() ==> final(self)@.data[k] == old(
                    self,
                )@.data[k],
            forall|k: int|
                old(self)@.data.len() <= k < rows * cols ==> call_ensures(
                    T::default,
                    (),
                    #[trigger] final(self)@.data[k],
                ),
    {
        let needed: usize = rows * cols;
        if self.data.len() > needed {
            self.data.truncate(needed);
        }
        while self.data.len() < needed
            invariant
                self.data@.len() <= needed,
                forall|k: int|
                    0 <= k < needed && k < old(self)@.data.len() && k < self.data@.len()
                        ==> self.data@[k] == old(self)@.data[k],
                self.data@.len() >= old(self)@.data.len() || self.data@.len() == needed,
                forall|k: int|
                    old(self)@.data.len() <= k < self.data@.len() ==> call_ensures(
                        T::default,
                        (),
                        #[trigger] self.data@[k],
                    ),
            decreases needed - self.data@.len(),
        {
            self.data.push(T::default());
        }
        self.rows = rows;
        self.cols = cols;
    }
}

impl<T> Matrix<T> {
    /// A matrix over elements that are already there, row by row.
    pub fn from_flat(data: Vec<T>, rows: usize, cols: usize) -> (r: Self)
        requires
            data@.len() == rows * cols,
        ensures
            r@ == (Grid { data: data@, rows: rows as nat, cols: cols as nat }),
    {
        Matrix { data, rows, cols }
    }

    /// The number of rows.
    pub fn rows(&self) -> (r: usize)
        ensures
            r == self@.rows,
    {
        self.rows
    }

    /// The number of columns.
    pub fn cols(&self) -> (r: usize)
        ensures
            r == self@.cols,
    {
        self.cols
    }

    /// The numbers of rows and columns.
    pub fn shape(&self) -> (r: (usize, usize))
        ensures
            r.0 == self@.rows,
            r.1 == self@.cols,
    {
        (self.rows, self.cols)
    }

    /// All elements, row by row.
    pub fn data(&self) -> (r: &[T])
        ensures
            r@ == self@.data,
    {
        self.data.as_slice()
    }

    /// All elements, row by row, to be changed in place.
    pub fn data_mut(&mut self) -> (r: &mut [T])
        ensures
            r@ == old(self)@.data,
            final(self)@ == (Grid { data: final(r)@, ..old(self)@ }),
    {
        self.data.as_mut_slice()
    }

    /// Row `i`.
    pub fn row(&self, i: usize) -> (r: &[T])
        requires
            self@.wf(),
            i < self@.rows,
        ensures
            r@ == self@.row(i as int),
    {
        let total: usize = self.data.len();
        proof {
            lemma_row_end(i as int, self@.rows as int, self@.cols as int);
        }
        let start: usize = i * self.cols;
        vstd::slice::slice_subrange(self.data.as_slice(), start, start + self.cols)
    }

    /// Row `i`, to be changed in place.
    pub fn row_mut(&mut self, i: usize) -> (r: &mut [T])
        requires
            old(self)@.wf(),
            i < old(self)@.rows,
        ensures
            r@ == old(self)@.row(i as int),
            final(self)@.rows == old(self)@.rows,
            final(self)@.cols == old(self)@.cols,
            final(self)@.data == old(self)@.data.take(i * old(self)@.cols) + final(r)@ + old(
                self,
            )@.data.skip(i * old(self)@.cols + old(self)@.cols),
    {
        let total: usize = self.data.len();
        proof {
            lemma_row_end(i as int, self@.rows as int, self@.cols as int);
        }
        let ghost before = self@.data;
        let start: usize = i * self.cols;
        let cols: usize = self.cols;
        let (above, rest) = self.data.as_mut_slice().split_at_mut(start);
        let (row, below) = rest.split_at_mut(cols);
        assert(above@ =~= before.take(start as int));
        assert(below@ =~= before.skip(start + cols));
        row
    }
}

/// A row ends within the elements.
pub proof fn lemma_row_end(i: int, rows: int, cols: int)
    requires
        0 <= i < rows,
        0 <= cols,
    ensures
        0 <= i * cols,
        i * cols + cols <= rows * cols,
{
    assert(0 <= i * cols && i * cols + cols <= rows * cols) by (nonlinear_arith)
        requires
            0 <= i < rows,
            0 <= cols,
    ;
}

/// The rows of a matrix, each a sequence of its own.
pub open spec fn rows_of<T>(g: Grid<T>) -> Seq<Seq<T>> {
    Seq::new(g.rows, |i: int| g.row(i))
}

/// The views of a list of rows.
pub open spec fn row_views<T>(rows: Seq<Vec<T>>) -> Seq<Seq<T>> {
    rows.map_values(|r: Vec<T>| r@)
}

/// All rows have `cols` elements.
pub open spec fn even<T>(rows: Seq<Vec<T>>, cols: nat) -> bool {
    forall|i: int| 0 <= i < rows.len() ==> (#[trigger] rows[i])@.len() == cols
}

/// Going on by one row.
pub proof fn lemma_next_row(i: int, cols: int)
    ensures
        (i + 1) * cols == i * cols + cols,
{
    assert((i + 1) * cols == i * cols + cols) by (nonlinear_arith);
}

impl<T: Copy> Matrix<T> {
    /// The element in row `i` and column `j`.
    pub fn get(&self, i: usize, j: usize) -> (r: T)
        requires
            self@.wf(),
            i < self@.rows,
            j < self@.cols,
        ensures
            r == self@.at(i as int, j as int),
    {
        let total: usize = self.data.len();
        proof {
            lemma_place(i as int, j as int, self@.rows as int, self@.cols as int);
        }
        self.data[i * self.cols + j]
    }

    /// Puts `v` into row `i` and column `j`.
    pub fn set(&mut self, i: usize, j: usize, v: T)
        requires
            old(self)@.wf(),
            i < old(self)@.rows,
            j < old(self)@.cols,
        ensures
            final(self)@ == (Grid {
                data: old(self)@.data.update(i * old(self)@.cols + j, v),
                ..old(self)@
            }),
    {
        let total: usize = self.data.len();
        proof {
            lemma_place(i as int, j as int, self@.rows as int, self@.cols as int);
        }
        let place: usize = i * self.cols + j;
        self.data.set(place, v);
    }

    /// A matrix with the given rows.
    pub fn from_jagged(rows: &[Vec<T>]) -> (r: Self)
        requires
            rows@.len() > 0,
            even(rows@, rows@[0]@.len()),
        ensures
            r@.wf(),
            r@.rows == rows@.len(),
            r@.cols == rows@[0]@.len(),
            rows_of(r@) == row_views(rows@),
    {
        let cols: usize = rows[0].len();
        let n: usize = rows.len();
        let mut data: Vec<T> = Vec::new();
        let mut i: usize = 0;
        while i < n
            invariant
                i <= n,
                n == rows@.len(),
                even(rows@, cols as nat),
                data@.len() == i * cols,
                forall|k: int, j: int|
                    0 <= k < i && 0 <= j < cols ==> data@[#[trigger] (k * cols + j)]
                        == #[trigger] rows@[k]@[j],
            decreases n - i,
        {
            let ghost before = data@;
            extend_with(&mut data, rows[i].as_slice());
            proof {
                lemma_next_row(i as int, cols as int);
                assert forall|k: int, j: int| 0 <= k < i + 1 && 0 <= j < cols implies data@[
                #[trigger] (k * cols + j)] == #[trigger] rows@[k]@[j] by {
                    if k < i {
                        lemma_place(k, j, i as int, cols as int);
                    }
                }
            }
            i += 1;
        }
        let r = Matrix { data, rows: n, cols };
        proof {
            assert forall|k: int| 0 <= k < n implies #[trigger] rows_of(r@)[k] == rows@[k]@ by {
                lemma_row_end(k, n as int, cols as int);
                assert forall|j: int| 0 <= j < cols implies r@.row(k)[j] == rows@[k]@[j] by {
                    assert(data@[k * cols + j] == rows@[k]@[j]);
                }
                assert(r@.row(k) =~= rows@[k]@);
            }
            assert(rows_of(r@) =~= row_views(rows@));
        }
        r
    }

    /// The rows of the matrix, each in a vector of its own.
    pub fn to_jagged(&self) -> (r: Vec<Vec<T>>)
        requires
            self@.wf(),
            self@.cols > 0,
        ensures
            row_views(r@) == rows_of(self@),
    {
        let mut r: Vec<Vec<T>> = Vec::new();
        let mut i: usize = 0;
        while i < self.rows
            invariant
                self@.wf(),
                i <= self@.rows,
                r@.len() == i,
                forall|k: int| 0 <= k < i ==> (#[trigger] r@[k])@ == self@.row(k),
            decreases self.rows - i,
        {
            let mut row: Vec<T> = Vec::new();
            extend_with(&mut row, self.row(i));
            assert(row@ =~= self@.row(i as int));
            r.push(row);
            i += 1;
        }
        assert(row_views(r@) =~= rows_of(self@));
        r
    }

    /// Every element replaced by what `f` makes of it.
    pub fn map<F: Fn(T) -> T>(&self, f: F) -> (r: Self)
        requires
            self@.wf(),
            forall|k: int|
                0 <= k < self@.data.len() ==> call_requires(f, (#[trigger] self@.data[k],)),
        ensures
            r@.wf(),
            r@.rows == self@.rows,
            r@.cols == self@.cols,
            forall|k: int|
                0 <= k < self@.data.len() ==> call_ensures(
                    f,
                    (self@.data[k],),
                    #[trigger] r@.data[k],
                ),
    {
        let total: usize = self.data.len();
        let mut data: Vec<T> = Vec::new();
        let mut i: usize = 0;
        while i < total
            invariant
                total == self@.data.len(),
                i <= total,
                data@.len() == i,
                forall|k: int|
                    0 <= k < self@.data.len() ==> call_requires(f, (#[trigger] self@.data[k],)),
                forall|k: int|
                    0 <= k < i ==> call_ensures(f, (self@.data[k],), #[trigger] data@[k]),
            decreases total - i,
        {
            assert(call_requires(f, (self@.data[i as int],)));
            data.push(f(self.data[i]));
            i += 1;
        }
        Matrix { data, rows: self.rows, cols: self.cols }
    }

    /// What `f` makes of each two elements in the same place.
    pub fn elementwise_with<F: Fn(T, T) -> T>(&self, other: &Matrix<T>, f: F) -> (r: Self)
        requires
            self@.wf(),
            other@.wf(),
            self@.rows == other@.rows,
            self@.cols == other@.cols,
            forall|k: int|
                0 <= k < self@.data.len() ==> call_requires(
                    f,
                    (#[trigger] self@.data[k], other@.data[k]),
                ),
        ensures
            r@.wf(),
            r@.rows == self@.rows,
            r@.cols == self@.cols,
            forall|k: int|
                0 <= k < self@.data.len() ==> call_ensures(
                    f,
                    (self@.data[k], other@.data[k]),
                    #[trigger] r@.data[k],
                ),
    {
        let total: usize = self.data.len();
        let mut data: Vec<T> = Vec::new();
        let mut i: usize = 0;
        while i < total
            invariant
                total == self@.data.len(),
                total == other@.data.len(),
                i <= total,
                data@.len() == i,
                forall|k: int|
                    0 <= k < self@.data.len() ==> call_requires(
                        f,
                        (#[trigger] self@.data[k], other@.data[k]),
                    ),
                forall|k: int|
                    0 <= k < i ==> call_ensures(
                        f,
                        (self@.data[k], other@.data[k]),
                        #[trigger] data@[k],
                    ),
            decreases total - i,
        {
            assert(call_requires(f, (self@.data[i as int], other@.data[i as int])));
            data.push(f(self.data[i], other.data[i]));
            i += 1;
        }
        Matrix { data, rows: self.rows, cols: self.cols }
    }
}

impl<T: Copy + Default + Send + Sync> Matrix<T> {
    /// Rows and columns exchanged.
    pub fn transpose(&self) -> (r: Self)
        requires
            self@.wf(),
            self@.rows > 0,
        ensures
            r@ == self@.transposed(),
    {
        let total: usize = self.data.len();
        proof {
            vstd::arithmetic::mul::lemma_mul_is_commutative(self.rows as int, self.cols as int);
        }
        let mut r: Matrix<T> = Matrix::zeros(self.cols, self.rows);
        self.transpose_into(&mut r);
        r
    }

    /// Rows and columns exchanged, written over `out`.
    pub fn transpose_into(&self, out: &mut Matrix<T>)
        requires
            self@.wf(),
            self@.rows > 0,
            old(out)@.wf(),
            old(out)@.rows == self@.cols,
            old(out)@.cols == self@.rows,
        ensures
            final(out)@ == self@.transposed(),
    {
        proof {
            vstd::arithmetic::mul::lemma_mul_is_commutative(self.rows as int, self.cols as int);
        }
        transpose_in_parallel(&self.data, self.rows, self.cols, &mut out.data);
        assert(out@ =~= self@.transposed());
    }
}

impl<T> Grid<T> {
    /// The rows from `start` up to `end`.
    pub open spec fn row_range(self, start: int, end: int) -> Self {
        Grid {
            data: self.data.subrange(start * self.cols, end * self.cols),
            rows: (end - start) as nat,
            cols: self.cols,
        }
    }
}

impl<T: Copy> Matrix<T> {
    /// The rows from `start` up to `end`.
    pub fn slice_rows(&self, start: usize, end: usize) -> (r: Self)
        requires
            self@.wf(),
            start <= end <= self@.rows,
        ensures
            r@.wf(),
            r@ == self@.row_range(start as int, end as int),
    {
        let total: usize = self.data.len();
        proof {
            lemma_range(start as int, end as int, self.rows as int, self.cols as int);
        }
        let from: usize = start * self.cols;
        let to: usize = end * self.cols;
        let mut data: Vec<T> = Vec::new();
        extend_with(&mut data, vstd::slice::slice_subrange(self.data.as_slice(), from, to));
        let r = Matrix { data, rows: end - start, cols: self.cols };
        assert(r@ =~= self@.row_range(start as int, end as int));
        r
    }
}

/// A range of rows lies within the elements.
pub proof fn lemma_range(start: int, end: int, rows: int, cols: int)
    requires
        0 <= start <= end <= rows,
        0 <= cols,
    ensures
        0 <= start * cols <= end * cols <= rows * cols,
        end * cols - start * cols == (end - start) * cols,
{
    assert(0 <= start * cols && start * cols <= end * cols && end * cols <= rows * cols && end * cols
        - start * cols == (end - start) * cols) by (nonlinear_arith)
        requires
            0 <= start <= end <= rows,
            0 <= cols,
    ;
}

/// The rows of a range are those of the whole.
pub proof fn law_a_range_keeps_its_rows<T>(g: Grid<T>, start: int, end: int)
    requires
        g.wf(),
        0 <= start <= end <= g.rows,
    ensures
        g.row_range(start, end).wf(),
        forall|i: int|
            0 <= i < end - start ==> #[trigger] g.row_range(start, end).row(i) == g.row(start + i),
{
    lemma_range(start, end, g.rows as int, g.cols as int);
    assert forall|i: int| 0 <= i < end - start implies #[trigger] g.row_range(start, end).row(i)
        == g.row(start + i) by {
        lemma_row_end(i, end - start, g.cols as int);
        lemma_row_end(start + i, g.rows as int, g.cols as int);
        assert((start + i) * g.cols == start * g.cols + i * g.cols) by (nonlinear_arith);
        assert(g.row_range(start, end).row(i) =~= g.row(start + i));
    }
}

impl<T: Copy + Default> Matrix<T> {
    /// The matrix with `rows` rows: those that it has, as far as there is room,
    /// and the default element behind them.
    pub fn pad_rows(&self, rows: usize) -> (r: Self)
        requires
            self@.wf(),
            rows * self@.cols <= usize::MAX,
        ensures
            r@.wf(),
            r@.rows == rows,
            r@.cols == self@.cols,
            forall|k: int|
                0 <= k < rows * self@.cols && k < self@.data.len() ==> r@.data[k]
                    == self@.data[k],
            forall|k: int|
                self@.data.len() <= k < rows * self@.cols ==> call_ensures(
                    T::default,
                    (),
                    #[trigger] r@.data[k],
                ),
    {
        let mut r: Matrix<T> = self.clone();
        r.ensure_shape(rows, self.cols);
        r
    }
}

/// The columns cut into `n` blocks of the same width.
pub open spec fn column_blocks<T>(g: Grid<T>, n: nat) -> Seq<Grid<T>> {
    Seq::new(n, |h: int| g.column_block(h, g.cols / n))
}

/// The matrices of a list.
pub open spec fn grids<T>(parts: Seq<Matrix<T>>) -> Seq<Grid<T>> {
    parts.map_values(|m: Matrix<T>| m@)
}

/// The matrices of a list of references.
pub open spec fn grids_behind<T>(parts: Seq<&Matrix<T>>) -> Seq<Grid<T>> {
    parts.map_values(|m: &Matrix<T>| m@)
}

/// All matrices have one shape.
pub open spec fn same_shape<T>(parts: Seq<Grid<T>>, rows: nat, cols: nat) -> bool {
    forall|h: int|
        0 <= h < parts.len() ==> (#[trigger] parts[h]).wf() && parts[h].rows == rows
            && parts[h].cols == cols
}

/// Matrices of one shape set side by side.
pub open spec fn side_by_side<T>(parts: Seq<Grid<T>>) -> Grid<T> {
    Grid::of(
        parts[0].rows,
        parts[0].cols * parts.len(),
        |i: int, j: int| parts[j / (parts[0].cols as int)].at(i, j % (parts[0].cols as int)),
    )
}

/// A column in a block is a column of the whole.
pub proof fn lemma_column_of_block(h: int, j: int, n: int, block: int)
    requires
        0 <= h < n,
        0 <= j < block,
    ensures
        0 <= h * block + j < block * n,
        (h * block + j) / block == h,
        (h * block + j) % block == j,
{
    lemma_place(h, j, n, block);
    vstd::arithmetic::mul::lemma_mul_is_commutative(n, block);
    lemma_row_and_column(h, j, block);
}

/// Cutting and setting side by side again gives the matrix back.
pub proof fn law_blocks_make_up_the_matrix<T>(g: Grid<T>, n: nat)
    requires
        g.wf(),
        n > 0,
        g.cols % n == 0,
    ensures
        side_by_side(column_blocks(g, n)) == g,
{
    let block = g.cols / n;
    let parts = column_blocks(g, n);
    vstd::arithmetic::div_mod::lemma_fundamental_div_mod(g.cols as int, n as int);
    vstd::arithmetic::mul::lemma_mul_is_commutative(n as int, block as int);
    assert(g.cols == block * n);
    let f = |i: int, j: int| parts[j / (parts[0].cols as int)].at(i, j % (parts[0].cols as int));
    assert(side_by_side(parts) == Grid::of(g.rows, g.cols, f));
    lemma_of(g.rows, g.cols, f);
    assert forall|i: int, j: int| 0 <= i < g.rows && 0 <= j < g.cols implies #[trigger] side_by_side(
        parts,
    ).at(i, j) == g.at(i, j) by {
        lemma_place_splits(j, n as int, block as int);
        let h = j / (block as int);
        lemma_of(g.rows, block, |a: int, b: int| g.at(a, h * block + b));
        assert(parts[h].at(i, j % (block as int)) == g.at(i, h * block + j % (block as int)));
        assert(side_by_side(parts).at(i, j) == f(i, j));
    }
    lemma_same_elements(side_by_side(parts), g);
}

/// Setting side by side and cutting again gives the parts back.
pub proof fn law_parts_are_cut_out_again<T>(parts: Seq<Grid<T>>)
    requires
        parts.len() > 0,
        same_shape(parts, parts[0].rows, parts[0].cols),
    ensures
        column_blocks(side_by_side(parts), parts.len()) == parts,
{
    let n = parts.len();
    let rows = parts[0].rows;
    let block = parts[0].cols;
    let g = side_by_side(parts);
    vstd::arithmetic::div_mod::lemma_div_multiples_vanish(block as int, n as int);
    vstd::arithmetic::mul::lemma_mul_is_commutative(n as int, block as int);
    assert(g.cols / n == block);
    let f = |i: int, j: int| parts[j / (block as int)].at(i, j % (block as int));
    lemma_of(rows, block * n, f);
    assert forall|h: int| 0 <= h < n implies #[trigger] column_blocks(g, n)[h] == parts[h] by {
        let cut = g.column_block(h, block);
        lemma_of(rows, block, |a: int, b: int| g.at(a, h * block + b));
        assert forall|i: int, j: int| 0 <= i < rows && 0 <= j < block implies #[trigger] cut.at(
            i,
            j,
        ) == parts[h].at(i, j) by {
            lemma_column_of_block(h, j, n as int, block as int);
            assert(g.at(i, h * block + j) == f(i, h * block + j));
        }
        lemma_same_elements(cut, parts[h]);
    }
    assert(column_blocks(g, n) =~= parts);
}

impl<T: Copy> Matrix<T> {
    /// Copies the block of columns `h` over `out`.
    fn copy_column_block(&self, h: usize, n: usize, out: &mut Matrix<T>)
        requires
            self@.wf(),
            h < n,
            self@.cols % (n as nat) == 0,
            old(out)@.wf(),
            old(out)@.rows == self@.rows,
            old(out)@.cols == self@.cols / (n as nat),
        ensures
            final(out)@ == self@.column_block(h as int, self@.cols / (n as nat)),
    {
        let block: usize = out.cols;
        let ghost target = self@.column_block(h as int, block as nat);
        let total: usize = self.data.len();
        let out_total: usize = out.data.len();
        proof {
            vstd::arithmetic::div_mod::lemma_fundamental_div_mod(self.cols as int, n as int);
            vstd::arithmetic::mul::lemma_mul_is_commutative(n as int, block as int);
            lemma_of(self@.rows, block as nat, |a: int, b: int| self@.at(a, h * block + b));
            lemma_row_end(h as int, n as int, block as int);
        }
        let mut i: usize = 0;
        while i < self.rows
            invariant
                i <= self@.rows,
                self@.wf(),
                total == self@.data.len(),
                out_total == out@.data.len(),
                out@.wf(),
                out@.rows == self@.rows,
                out@.cols == block,
                self@.cols == block * n,
                h < n,
                0 <= h * block,
                h * block + block <= self@.cols,
                target == self@.column_block(h as int, block as nat),
                target.data.len() == self@.rows * block,
                forall|k: int| 0 <= k < i * block ==> out@.data[k] == target.data[k],
            decreases self.rows - i,
        {
            proof {
                lemma_row_end(i as int, self@.rows as int, self@.cols as int);
                lemma_row_end(i as int, self@.rows as int, block as int);
                lemma_next_row(i as int, block as int);
            }
            let from: usize = i * self.cols + h * block;
            let to: usize = i * block;
            let mut j: usize = 0;
            while j < block
                invariant
                    i < self@.rows,
                    j <= block,
                    self@.wf(),
                    total == self@.data.len(),
                    out_total == out@.data.len(),
                    out@.wf(),
                    out@.rows == self@.rows,
                    out@.cols == block,
                    from == i * self@.cols + h * block,
                    to == i * block,
                    from + block <= total,
                    to + block <= out_total,
                    target == self@.column_block(h as int, block as nat),
                    target.data.len() == self@.rows * block,
                    forall|k: int| 0 <= k < to + j ==> out@.data[k] == target.data[k],
                decreases block - j,
            {
                proof {
                    lemma_row_and_column(i as int, j as int, block as int);
                    assert(target.data[to + j] == self@.at(i as int, h * block + j));
                }
                out.data.set(to + j, self.data[from + j]);
                j += 1;
            }
            i += 1;
        }
        assert(out@ =~= target);
    }

    /// Writes the blocks of columns over `out`, one block for each matrix there.
    pub fn split_columns_into(&self, out: &mut [Matrix<T>])
        requires
            self@.wf(),
            old(out)@.len() > 0,
            self@.cols % old(out)@.len() == 0,
            same_shape(grids(old(out)@), self@.rows, self@.cols / old(out)@.len()),
        ensures
            grids(final(out)@) == column_blocks(self@, old(out)@.len()),
    {
        let n: usize = out.len();
        assert(forall|k: int| 0 <= k < n ==> grids(out@)[k] == (#[trigger] out@[k])@);
        let mut h: usize = 0;
        while h < n
            invariant
                h <= n,
                n == out@.len(),
                n > 0,
                self@.wf(),
                self@.cols % (n as nat) == 0,
                forall|k: int|
                    h <= k < n ==> (#[trigger] out@[k])@.wf() && out@[k]@.rows == self@.rows
                        && out@[k]@.cols == self@.cols / (n as nat),
                forall|k: int|
                    0 <= k < h ==> (#[trigger] out@[k])@ == self@.column_block(
                        k,
                        self@.cols / (n as nat),
                    ),
            decreases n - h,
        {
            self.copy_column_block(h, n, &mut out[h]);
            h += 1;
        }
        assert(grids(out@) =~= column_blocks(self@, n as nat));
    }

    /// Sets the matrices side by side and writes the whole over `out`.
    pub fn concat_columns_into(parts: &[&Matrix<T>], out: &mut Matrix<T>)
        requires
            parts@.len() > 0,
            same_shape(grids_behind(parts@), parts@[0]@.rows, parts@[0]@.cols),
            old(out)@.wf(),
            old(out)@.rows == parts@[0]@.rows,
            old(out)@.cols == parts@[0]@.cols * parts@.len(),
        ensures
            final(out)@ == side_by_side(grids_behind(parts@)),
    {
        let rows: usize = parts[0].rows;
        let block: usize = parts[0].cols;
        let n: usize = parts.len();
        let cols: usize = out.cols;
        let total: usize = out.data.len();
        let ghost views = grids_behind(parts@);
        let ghost target = side_by_side(views);
        proof {
            assert(views[0] == parts@[0]@);
        }
        let mut i: usize = 0;
        while i < rows
            invariant
                i <= rows,
                n == parts@.len(),
                n > 0,
                views == grids_behind(parts@),
                views[0].rows == rows,
                views[0].cols == block,
                same_shape(views, rows as nat, block as nat),
                target == side_by_side(views),
                cols == block * n,
                out@.wf(),
                out@.rows == rows,
                out@.cols == cols,
                total == out@.data.len(),
                forall|k: int| 0 <= k < i * cols ==> out@.data[k] == target.data[k],
            decreases rows - i,
        {
            proof {
                lemma_row_end(i as int, rows as int, cols as int);
                lemma_next_row(i as int, cols as int);
            }
            let start: usize = i * cols;
            let mut h: usize = 0;
            assert(h * block == 0) by (nonlinear_arith)
                requires
                    h == 0,
            ;
            while h < n
                invariant
                    i < rows,
                    h <= n,
                    n == parts@.len(),
                    n > 0,
                    views == grids_behind(parts@),
                    views[0].rows == rows,
                    views[0].cols == block,
                    same_shape(views, rows as nat, block as nat),
                    target == side_by_side(views),
                    cols == block * n,
                    out@.wf(),
                    out@.rows == rows,
                    out@.cols == cols,
                    total == out@.data.len(),
                    start == i * cols,
                    start + cols <= total,
                    forall|k: int| 0 <= k < start + h * block ==> out@.data[k] == target.data[k],
                decreases n - h,
            {
                let part: &Matrix<T> = parts[h];
                assert(views[h as int] == part@);
                proof {
                    lemma_row_end(h as int, n as int, block as int);
                    vstd::arithmetic::mul::lemma_mul_is_commutative(n as int, block as int);
                    lemma_next_row(h as int, block as int);
                    lemma_row_end(i as int, rows as int, block as int);
                }
                let part_total: usize = part.data.len();
                let to: usize = start + h * block;
                let from: usize = i * block;
                let mut j: usize = 0;
                while j < block
                    invariant
                        i < rows,
                        h < n,
                        j <= block,
                        n == parts@.len(),
                        views.len() == n,
                        views[0].rows == rows,
                        views[0].cols == block,
                        views[h as int] == part@,
                        part@.wf(),
                        part@.rows == rows,
                        part@.cols == block,
                        part_total == part@.data.len(),
                        target == side_by_side(views),
                        cols == block * n,
                        out@.wf(),
                        out@.rows == rows,
                        out@.cols == cols,
                        total == out@.data.len(),
                        start == i * cols,
                        to == start + h * block,
                        to + block <= total,
                        from == i * block,
                        from + block <= part_total,
                        forall|k: int| 0 <= k < to + j ==> out@.data[k] == target.data[k],
                    decreases block - j,
                {
                    proof {
                        lemma_column_of_block(h as int, j as int, n as int, block as int);
                        lemma_row_and_column(i as int, h * block + j, cols as int);
                        assert(target.data[to + j] == part@.at(i as int, j as int));
                    }
                    out.data.set(to + j, part.data[from + j]);
                    j += 1;
                }
                h += 1;
            }
            assert(h * block == cols) by {
                vstd::arithmetic::mul::lemma_mul_is_commutative(n as int, block as int);
            }
            i += 1;
        }
        assert(out@ =~= target);
    }
}

impl<T: Copy + Default> Matrix<T> {
    /// The columns cut into `n` blocks of the same width.
    pub fn split_columns(&self, n: usize) -> (r: Vec<Matrix<T>>)
        requires
            self@.wf(),
            n > 0,
            self@.cols % (n as nat) == 0,
        ensures
            grids(r@) == column_blocks(self@, n as nat),
    {
        let block: usize = self.cols / n;
        let total: usize = self.data.len();
        proof {
            vstd::arithmetic::div_mod::lemma_div_is_ordered_by_denominator(
                self.cols as int,
                1,
                n as int,
            );
            assert(self.rows * block <= self.rows * self.cols) by (nonlinear_arith)
                requires
                    block <= self.cols,
            ;
        }
        let mut r: Vec<Matrix<T>> = Vec::new();
        let mut h: usize = 0;
        while h < n
            invariant
                h <= n,
                n > 0,
                self@.wf(),
                self@.cols % (n as nat) == 0,
                block == self@.cols / (n as nat),
                self.rows * block <= usize::MAX,
                r@.len() == h,
                forall|k: int|
                    0 <= k < h ==> (#[trigger] r@[k])@ == self@.column_block(k, block as nat),
            decreases n - h,
        {
            let mut part: Matrix<T> = Matrix::zeros(self.rows, block);
            self.copy_column_block(h, n, &mut part);
            r.push(part);
            h += 1;
        }
        assert(grids(r@) =~= column_blocks(self@, n as nat));
        r
    }

    /// Matrices of one shape set side by side.
    pub fn concat_columns(parts: &[Matrix<T>]) -> (r: Self)
        requires
            parts@.len() > 0,
            same_shape(grids(parts@), parts@[0]@.rows, parts@[0]@.cols),
            parts@[0]@.cols * parts@.len() <= usize::MAX,
            parts@[0]@.rows * (parts@[0]@.cols * parts@.len()) <= usize::MAX,
        ensures
            r@ == side_by_side(grids(parts@)),
    {
        let n: usize = parts.len();
        let mut refs: Vec<&Matrix<T>> = Vec::new();
        let mut h: usize = 0;
        while h < n
            invariant
                h <= n,
                n == parts@.len(),
                refs@.len() == h,
                forall|k: int| 0 <= k < h ==> *(#[trigger] refs@[k]) == parts@[k],
            decreases n - h,
        {
            refs.push(&parts[h]);
            h += 1;
        }
        assert(grids_behind(refs@) =~= grids(parts@));
        let mut r: Matrix<T> = Matrix::zeros(parts[0].rows, parts[0].cols * n);
        Matrix::concat_columns_into(refs.as_slice(), &mut r);
        r
    }
}

} // verus!
