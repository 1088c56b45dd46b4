//! Shapes and strides of a matrix product with operands that may be read
//! transposed.
//!
//! The product itself is computed elsewhere, straight from memory. What is
//! settled here is which operands fit together and where each element lies.

use crate::matrix::{self, Grid};
use vstd::prelude::*;

verus! {

/// Why a product cannot be computed.
#[derive(Clone, Copy, PartialEq, Eq, Structural, Debug)]
pub enum ShapeError {
    /// The rows of the second operand are not as many as the columns of the first.
    InnerMismatch,
    /// The result has no room in the output.
    OutputMismatch,
}

/// How the operands of a product are read: element `(i, l)` of the first lies at
/// `i * rsa + l * csa`, element `(l, j)` of the second at `l * rsb + j * csb`, and
/// element `(i, j)` of the result at `i * n + j`.
#[derive(Clone, Copy, PartialEq, Eq, Structural, Debug)]
pub struct GemmPlan {
    pub m: usize,
    pub k: usize,
    pub n: usize,
    pub rsa: usize,
    pub csa: usize,
    pub rsb: usize,
    pub csb: usize,
}

/// A shape, exchanged where the matrix is read transposed.
pub open spec fn shape_as_read(shape: (usize, usize), transposed: bool) -> (usize, usize) {
    if transposed {
        (shape.1, shape.0)
    } else {
        shape
    }
}

/// The steps to the next row and to the next column.
pub open spec fn strides_as_read(cols: usize, transposed: bool) -> (usize, usize) {
    if transposed {
        (1, cols)
    } else {
        (cols, 1)
    }
}

/// The plan for operands of these shapes.
pub open spec fn plan_of(
    a: (usize, usize),
    trans_a: bool,
    b: (usize, usize),
    trans_b: bool,
) -> GemmPlan {
    GemmPlan {
        m: shape_as_read(a, trans_a).0,
        k: shape_as_read(a, trans_a).1,
        n: shape_as_read(b, trans_b).1,
        rsa: strides_as_read(a.1, trans_a).0,
        csa: strides_as_read(a.1, trans_a).1,
        rsb: strides_as_read(b.1, trans_b).0,
        csb: strides_as_read(b.1, trans_b).1,
    }
}

/// A matrix as it is read.
pub open spec fn as_read<T>(g: Grid<T>, transposed: bool) -> Grid<T> {
    if transposed {
        g.transposed()
    } else {
        g
    }
}

/// A shape as it is read.
fn shape_of(shape: (usize, usize), transposed: bool) -> (r: (usize, usize))
    ensures
        r == shape_as_read(shape, transposed),
{
    if transposed {
        (shape.1, shape.0)
    } else {
        (shape.0, shape.1)
    }
}

/// The steps to the next row and to the next column.
fn strides_of(cols: usize, transposed: bool) -> (r: (usize, usize))
    ensures
        r == strides_as_read(cols, transposed),
{
    if transposed {
        (1, cols)
    } else {
        (cols, 1)
    }
}

impl GemmPlan {
    /// The plan for operands of these shapes.
    pub fn new(a: (usize, usize), trans_a: bool, b: (usize, usize), trans_b: bool) -> (r: Result<
        GemmPlan,
        ShapeError,
    >)
        ensures
            r == (if shape_as_read(a, trans_a).1 == shape_as_read(b, trans_b).0 {
                Ok::<GemmPlan, ShapeError>(plan_of(a, trans_a, b, trans_b))
            } else {
                Err::<GemmPlan, ShapeError>(ShapeError::InnerMismatch)
            }),
    {
        let (m, k) = shape_of(a, trans_a);
        let (k_b, n) = shape_of(b, trans_b);
        if k != k_b {
            return Err(ShapeError::InnerMismatch);
        }
        let (rsa, csa) = strides_of(a.1, trans_a);
        let (rsb, csb) = strides_of(b.1, trans_b);
        Ok(GemmPlan { m, k, n, rsa, csa, rsb, csb })
    }

    /// The plan for operands and an output of these shapes.
    pub fn with_output(
        a: (usize, usize),
        trans_a: bool,
        b: (usize, usize),
        trans_b: bool,
        out: (usize, usize),
    ) -> (r: Result<GemmPlan, ShapeError>)
        ensures
            r == (if shape_as_read(a, trans_a).1 != shape_as_read(b, trans_b).0 {
                Err::<GemmPlan, ShapeError>(ShapeError::InnerMismatch)
            } else if out != (shape_as_read(a, trans_a).0, shape_as_read(b, trans_b).1) {
                Err::<GemmPlan, ShapeError>(ShapeError::OutputMismatch)
            } else {
                Ok::<GemmPlan, ShapeError>(plan_of(a, trans_a, b, trans_b))
            }),
    {
        let plan: GemmPlan = GemmPlan::new(a, trans_a, b, trans_b)?;
        if out.0 != plan.m || out.1 != plan.n {
            return Err(ShapeError::OutputMismatch);
        }
        Ok(plan)
    }
}

/// Every place that a plan reads lies within its operand and holds the element
/// of the operand as it is read.
pub proof fn law_plan_reads_the_operands<T>(
    a: Grid<T>,
    trans_a: bool,
    b: Grid<T>,
    trans_b: bool,
    plan: GemmPlan,
    i: int,
    l: int,
    j: int,
)
    requires
        a.wf(),
        b.wf(),
        a.rows <= usize::MAX,
        a.cols <= usize::MAX,
        b.rows <= usize::MAX,
        b.cols <= usize::MAX,
        plan == plan_of(
            (a.rows as usize, a.cols as usize),
            trans_a,
            (b.rows as usize, b.cols as usize),
            trans_b,
        ),
        plan.k == shape_as_read((b.rows as usize, b.cols as usize), trans_b).0,
        0 <= i < plan.m,
        0 <= l < plan.k,
        0 <= j < plan.n,
    ensures
        0 <= i * plan.rsa + l * plan.csa < a.data.len(),
        a.data[i * plan.rsa + l * plan.csa] == as_read(a, trans_a).at(i, l),
        0 <= l * plan.rsb + j * plan.csb < b.data.len(),
        b.data[l * plan.rsb + j * plan.csb] == as_read(b, trans_b).at(l, j),
{
    lemma_operand(a, trans_a, i, l);
    lemma_operand(b, trans_b, l, j);
}

/// One operand of `law_plan_reads_the_operands`.
proof fn lemma_operand<T>(g: Grid<T>, transposed: bool, i: int, j: int)
    requires
        g.wf(),
        g.rows <= usize::MAX,
        g.cols <= usize::MAX,
        0 <= i < shape_as_read((g.rows as usize, g.cols as usize), transposed).0,
        0 <= j < shape_as_read((g.rows as usize, g.cols as usize), transposed).1,
    ensures
        ({
            let (row, col) = strides_as_read(g.cols as usize, transposed);
            &&& 0 <= i * row + j * col < g.data.len()
            &&& g.data[i * row + j * col] == as_read(g, transposed).at(i, j)
        }),
{
    if transposed {
        matrix::lemma_place(j, i, g.rows as int, g.cols as int);
        matrix::lemma_of(g.cols, g.rows, |a: int, b: int| g.at(b, a));
        assert(g.transposed().at(i, j) == g.at(j, i));
        assert(i * 1 == i);
    } else {
        matrix::lemma_place(i, j, g.rows as int, g.cols as int);
        assert(j * 1 == j);
    }
}

} // verus!
