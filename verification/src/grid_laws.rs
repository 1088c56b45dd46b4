//! Where the elements of a matrix go when it is cut, joined and turned.

use vstd::prelude::*;

use crate::gemm::{self, GemmPlan};
use crate::matrix::{self, Grid};
use crate::multi_head_attention;

verus! {

/// The elements of a matrix stand row by row: row `i` holds the elements of row `i`
/// from left to right, and the rows one behind the other are all elements.
pub proof fn law_elements_stand_row_by_row<T>(g: Grid<T>, i: int, j: int)
    requires
        g.wf(),
        0 <= i < g.rows,
        0 <= j < g.cols,
    ensures
        g.row(i).len() == g.cols,
        g.row(i)[j] == g.at(i, j),
        matrix::rows_of(g).len() == g.rows,
        matrix::rows_of(g)[i] == g.row(i),
{
    matrix::lemma_row_end(i, g.rows as int, g.cols as int);
}

/// All rows, one behind the other, are all elements in their order.
pub proof fn law_the_rows_are_all_elements<T>(g: Grid<T>)
    requires
        g.wf(),
    ensures
        matrix::rows_of(g).flatten() == g.data,
{
    lemma_first_rows(g, g.rows);
    assert(matrix::rows_of(g).take(g.rows as int) =~= matrix::rows_of(g));
    assert(g.data.take((g.rows * g.cols) as int) =~= g.data);
}

/// The first rows, one behind the other.
proof fn lemma_first_rows<T>(g: Grid<T>, n: nat)
    requires
        g.wf(),
        n <= g.rows,
    ensures
        n * g.cols <= g.data.len(),
        matrix::rows_of(g).take(n as int).flatten() == g.data.take((n * g.cols) as int),
    decreases n,
{
    let rows = matrix::rows_of(g);
    matrix::lemma_range(0, n as int, g.rows as int, g.cols as int);
    if n == 0 {
        assert(rows.take(0).flatten() =~= Seq::<T>::empty());
        assert(g.data.take(0) =~= Seq::<T>::empty());
    } else {
        lemma_first_rows(g, (n - 1) as nat);
        matrix::lemma_row_end(n - 1, g.rows as int, g.cols as int);
        matrix::lemma_next_row(n - 1, g.cols as int);
        let before = rows.take(n - 1);
        assert(rows.take(n as int) =~= before.push(g.row(n - 1)));
        before.lemma_flatten_and_flatten_alt_are_equivalent();
        rows.take(n as int).lemma_flatten_and_flatten_alt_are_equivalent();
        assert(rows.take(n as int).drop_last() =~= before);
        assert(g.data.take((n * g.cols) as int) =~= g.data.take(((n - 1) * g.cols) as int) + g.row(
            n - 1,
        ));
    }
}

/// Turning a matrix exchanges its rows and columns.
pub proof fn law_turning_exchanges_rows_and_columns<T>(g: Grid<T>, i: int, j: int)
    requires
        g.wf(),
        0 <= i < g.rows,
        0 <= j < g.cols,
    ensures
        g.transposed().wf(),
        g.transposed().rows == g.cols,
        g.transposed().cols == g.rows,
        g.transposed().at(j, i) == g.at(i, j),
{
    matrix::lemma_of(g.cols, g.rows, |a: int, b: int| g.at(b, a));
}

/// A block of columns holds the columns from its number times its width on.
pub proof fn law_blocks_are_columns<T>(g: Grid<T>, h: int, width: nat, i: int, j: int)
    requires
        0 <= i < g.rows,
        0 <= j < width,
    ensures
        g.column_block(h, width).wf(),
        g.column_block(h, width).rows == g.rows,
        g.column_block(h, width).cols == width,
        g.column_block(h, width).at(i, j) == g.at(i, h * width + j),
{
    matrix::lemma_of(g.rows, width, |a: int, b: int| g.at(a, h * width + b));
}

/// Matrices side by side keep their rows, and the columns of each stand behind those
/// of the ones before it.
pub proof fn law_parts_stand_side_by_side<T>(parts: Seq<Grid<T>>, h: int, i: int, j: int)
    requires
        parts.len() > 0,
        matrix::same_shape(parts, parts[0].rows, parts[0].cols),
        0 <= h < parts.len(),
        0 <= i < parts[0].rows,
        0 <= j < parts[0].cols,
    ensures
        matrix::side_by_side(parts).wf(),
        matrix::side_by_side(parts).rows == parts[0].rows,
        matrix::side_by_side(parts).cols == parts.len() * parts[0].cols,
        matrix::side_by_side(parts).at(i, h * parts[0].cols + j) == parts[h].at(i, j),
{
    let block = parts[0].cols;
    let f = |a: int, b: int| parts[b / (block as int)].at(a, b % (block as int));
    matrix::lemma_of(parts[0].rows, block * parts.len(), f);
    vstd::arithmetic::mul::lemma_mul_is_commutative(parts.len() as int, block as int);
    matrix::lemma_column_of_block(h, j, parts.len() as int, block as int);
    assert(matrix::side_by_side(parts).at(i, h * block + j) == f(i, h * block + j));
}

/// The fused weights have the keys on the left and the values on the right.
pub proof fn law_keys_stand_left_of_values<T>(
    k: Grid<T>,
    v: Grid<T>,
    rows: nat,
    d_kv: nat,
    i: int,
    j: int,
)
    requires
        0 <= i < rows,
        0 <= j < d_kv,
    ensures
        multi_head_attention::fused(k, v, rows, d_kv).wf(),
        multi_head_attention::fused(k, v, rows, d_kv).rows == rows,
        multi_head_attention::fused(k, v, rows, d_kv).cols == 2 * d_kv,
        multi_head_attention::fused(k, v, rows, d_kv).at(i, j) == k.at(i, j),
        multi_head_attention::fused(k, v, rows, d_kv).at(i, d_kv + j) == v.at(i, j),
{
    let f = |a: int, b: int|
        if b < d_kv {
            k.at(a, b)
        } else {
            v.at(a, b - d_kv)
        };
    let g = multi_head_attention::fused(k, v, rows, d_kv);
    matrix::lemma_of(rows, d_kv + d_kv, f);
    assert(g.at(i, j) == f(i, j));
    assert(g.at(i, d_kv + j) == f(i, d_kv + j));
}

/// A plan multiplies all rows of the one operand with all columns of the other, as
/// they are read, over all that lies between.
pub proof fn law_plans_take_all_of_the_operands<T>(
    a: Grid<T>,
    trans_a: bool,
    b: Grid<T>,
    trans_b: bool,
    plan: GemmPlan,
)
    requires
        a.rows <= usize::MAX,
        a.cols <= usize::MAX,
        b.rows <= usize::MAX,
        b.cols <= usize::MAX,
        plan == gemm::plan_of(
            (a.rows as usize, a.cols as usize),
            trans_a,
            (b.rows as usize, b.cols as usize),
            trans_b,
        ),
    ensures
        plan.m == if trans_a {
            a.cols
        } else {
            a.rows
        },
        plan.k == if trans_a {
            a.rows
        } else {
            a.cols
        },
        plan.n == if trans_b {
            b.rows
        } else {
            b.cols
        },
        gemm::as_read(a, true) == a.transposed(),
        gemm::as_read(a, false) == a,
{
}

} // verus!
