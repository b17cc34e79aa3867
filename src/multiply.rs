//! The multiplication engine: the scalar and the lane-cascade products, and
//! the dispatch between them.
use crate::lanes::{
    dot,
    execute_mult_sum_simd,
    lane_dot,
    lemma_dot_bound,
    lemma_lane_dot_is_dot,
    lemma_product_bound,
    max_product,
};
use crate::matrix::{lemma_cell_in_bounds, FloatMatrix, MatrixView};
use vstd::arithmetic::div_mod::{lemma_fundamental_div_mod, lemma_fundamental_div_mod_converse, lemma_mod_bound};
use vstd::prelude::*;

verus! {

/// How a non-degenerate product is computed.
#[derive(Debug, Clone, Copy, PartialEq, Eq, Structural)]
pub enum MultiplyStrategy {
    /// Lane-cascade dot products over staged columns.
    Vectorized,
    /// Plain scalar accumulation.
    Scalar,
}

/// Picks the strategy from the outcome of the CPU feature probe: the
/// vectorized path when wide vector registers are available.
pub fn select_strategy(wide_vectors: bool) -> (r: MultiplyStrategy)
    ensures
        r == (if wide_vectors {
            MultiplyStrategy::Vectorized
        } else {
            MultiplyStrategy::Scalar
        }),
{
    if wide_vectors {
        MultiplyStrategy::Vectorized
    } else {
        MultiplyStrategy::Scalar
    }
}

/// The values of an `i128` sequence as mathematical integers.
pub open spec fn as_ints(s: Seq<i128>) -> Seq<int> {
    s.map_values(|x: i128| x as int)
}

/// The product in row-major order, each cell the left-to-right dot product
/// of a row of `a` and a column of `b`.
pub open spec fn naive_product(a: MatrixView<i32>, b: MatrixView<i32>) -> Seq<int> {
    Seq::new(
        a.height * b.width,
        |k: int| dot(a.row(k / b.width as int), b.column(k % b.width as int)),
    )
}

/// The product in row-major order, each cell summed by the lane cascade.
pub open spec fn lane_product(a: MatrixView<i32>, b: MatrixView<i32>) -> Seq<int> {
    Seq::new(
        a.height * b.width,
        |k: int| lane_dot(a.row(k / b.width as int), b.column(k % b.width as int)),
    )
}

/// Cell `k` of an `h` by `w` row-major layout lies in row `k / w`, column `k % w`.
proof fn lemma_cell_position(k: int, w: int, h: int)
    requires
        0 <= k < h * w,
        0 <= w,
        0 <= h,
    ensures
        w > 0,
        0 <= k / w < h,
        0 <= k % w < w,
{
    assert(w > 0) by (nonlinear_arith)
        requires
            0 <= k < h * w,
            0 <= h,
            0 <= w,
    ;
    lemma_fundamental_div_mod(k, w);
    lemma_mod_bound(k, w);
    let q = k / w;
    assert(0 <= q < h) by (nonlinear_arith)
        requires
            k == w * q + k % w,
            0 <= k % w < w,
            0 <= k < h * w,
    ;
}

proof fn lemma_row_len(m: MatrixView<i32>, r: int)
    requires
        m.well_shaped(),
        0 <= r < m.height,
    ensures
        m.row(r).len() == m.width,
{
    assert(0 <= r * m.width <= (r + 1) * m.width <= m.width * m.height
        && (r + 1) * m.width - r * m.width == m.width) by (nonlinear_arith)
        requires
            0 <= r < m.height,
    ;
}

/// For exactly representable values, the lane-cascade product and the
/// scalar product agree cell for cell.
pub proof fn lemma_lane_product_is_naive(a: MatrixView<i32>, b: MatrixView<i32>)
    requires
        a.well_shaped(),
        b.well_shaped(),
        a.width == b.height,
    ensures
        lane_product(a, b) == naive_product(a, b),
{
    assert forall|k: int| 0 <= k < a.height * b.width implies lane_product(a, b)[k]
        == naive_product(a, b)[k] by {
        lemma_cell_position(k, b.width as int, a.height as int);
        lemma_row_len(a, k / b.width as int);
        lemma_lane_dot_is_dot(a.row(k / b.width as int), b.column(k % b.width as int));
    }
    assert(lane_product(a, b) =~= naive_product(a, b));
}

/// Where output cell `r * w + c` sits, and that it follows the cells before.
proof fn lemma_next_cell(r: int, c: int, w: int, h: int)
    requires
        0 <= r < h,
        0 <= c < w,
    ensures
        (r * w + c) / w == r,
        (r * w + c) % w == c,
        r * w + c < h * w,
        r * w + c + 1 == if c + 1 == w { (r + 1) * w } else { r * w + c + 1 },
{
    lemma_fundamental_div_mod_converse(r * w + c, w, r, c);
    lemma_cell_in_bounds(r, c, w, h);
    assert(r * w + w == (r + 1) * w) by (nonlinear_arith);
}

/// The `k`-th partial dot product of two equal-length sequences fits an `i128`.
proof fn lemma_partial_dot_fits(a: Seq<i32>, b: Seq<i32>, k: int)
    requires
        a.len() == b.len(),
        0 <= k <= a.len(),
        a.len() <= usize::MAX,
    ensures
        i128::MIN <= dot(a.take(k), b.take(k)) <= i128::MAX,
{
    lemma_dot_bound(a.take(k), b.take(k));
    assert(k * max_product() <= a.len() * max_product()) by (nonlinear_arith)
        requires
            k <= a.len(),
    ;
}

impl FloatMatrix<i32> {
    /// Scalar product: each output cell accumulates
    /// `lhs.row(r)[i] * rhs.row(i)[c]` for `i` in `0..lhs.width`.
    pub fn naive_mult(self, rhs: Self) -> (r: FloatMatrix<i128>)
        requires
            self@.width == rhs@.height,
        ensures
            r@.width == rhs@.width,
            r@.height == self@.height,
            as_ints(r@.values) == naive_product(self@, rhs@),
    {
        let (lw, lh) = self.dim();
        let (rw, rh) = rhs.dim();
        let ghost a = self@;
        let ghost b = rhs@;
        let cap = match lh.checked_mul(rw) {
            Some(n) => n,
            None => 0,
        };
        let mut out: Vec<i128> = Vec::with_capacity(cap);
        let mut r: usize = 0;
        while r < lh
            invariant
                a == self@,
                b == rhs@,
                a.well_shaped(),
                b.well_shaped(),
                lw == a.width,
                lh == a.height,
                rw == b.width,
                rh == b.height,
                lw == rh,
                r <= lh,
                out@.len() == r * rw,
                forall|k: int|
                    0 <= k < out@.len() ==> #[trigger] out@[k] as int == naive_product(a, b)[k],
            decreases lh - r,
        {
            let row = self.get_row(r);
            proof {
                lemma_row_len(a, r as int);
            }
            let mut c: usize = 0;
            while c < rw
                invariant
                    a == self@,
                    b == rhs@,
                    a.well_shaped(),
                    b.well_shaped(),
                    lw == a.width,
                    lh == a.height,
                    rw == b.width,
                    rh == b.height,
                    lw == rh,
                    r < lh,
                    c <= rw,
                    row@ == a.row(r as int),
                    row@.len() == lw,
                    out@.len() == r * rw + c,
                    forall|k: int|
                        0 <= k < out@.len() ==> #[trigger] out@[k] as int == naive_product(
                            a,
                            b,
                        )[k],
                decreases rw - c,
            {
                let ghost col = b.column(c as int);
                let mut acc: i128 = 0;
                let mut i: usize = 0;
                while i < lw
                    invariant
                        a == self@,
                        b == rhs@,
                        b.well_shaped(),
                        rw == b.width,
                        rh == b.height,
                        lw == rh,
                        c < rw,
                        i <= lw,
                        row@.len() == lw,
                        col == b.column(c as int),
                        acc == dot(row@.take(i as int), col.take(i as int)),
                    decreases lw - i,
                {
                    let rhs_row = rhs.get_row(i);
                    proof {
                        lemma_cell_in_bounds(i as int, c as int, rw as int, rh as int);
                        lemma_row_len(b, i as int);
                        assert(row@.take(i + 1).drop_last() =~= row@.take(i as int));
                        assert(col.take(i + 1).drop_last() =~= col.take(i as int));
                        lemma_partial_dot_fits(row@, col, i + 1);
                        assert(rhs_row@[c as int] == col[i as int]);
                        assert(dot(row@.take(i + 1), col.take(i + 1)) == acc + row@[i as int] as int
                            * col[i as int] as int);
                    }
                    let val2 = rhs_row[c];
                    let x = row[i];
                    proof {
                        lemma_product_bound(x, val2);
                    }
                    acc = acc + (x as i128) * (val2 as i128);
                    i = i + 1;
                }
                proof {
                    assert(row@.take(lw as int) =~= row@);
                    assert(col.take(lw as int) =~= col);
                    lemma_next_cell(r as int, c as int, rw as int, lh as int);
                }
                out.push(acc);
                c = c + 1;
            }
            proof {
                assert(r * rw + rw == (r + 1) * rw) by (nonlinear_arith);
            }
            r = r + 1;
        }
        proof {
            assert(as_ints(out@) =~= naive_product(a, b));
            assert(lh * rw == rw * lh) by (nonlinear_arith);
        }
        FloatMatrix::new(out, rw, lh)
    }

    /// Lane-cascade product: the columns of `rhs` are staged into
    /// contiguous buffers, then each output cell is the lane-cascade dot
    /// product of a row of `self` and a staged column.
    pub fn vectorized_mult(self, rhs: Self) -> (r: FloatMatrix<i128>)
        requires
            self@.width == rhs@.height,
        ensures
            r@.width == rhs@.width,
            r@.height == self@.height,
            as_ints(r@.values) == lane_product(self@, rhs@),
    {
        let (lw, lh) = self.dim();
        let (rw, rh) = rhs.dim();
        let ghost a = self@;
        let ghost b = rhs@;
        let cap = match lh.checked_mul(rw) {
            Some(n) => n,
            None => 0,
        };
        let mut out: Vec<i128> = Vec::with_capacity(cap);
        let cols = rhs.column_buffers();
        let mut r: usize = 0;
        while r < lh
            invariant
                a == self@,
                b == rhs@,
                a.well_shaped(),
                b.well_shaped(),
                lw == a.width,
                lh == a.height,
                rw == b.width,
                rh == b.height,
                lw == rh,
                cols@.len() == rw,
                forall|c: int| 0 <= c < rw ==> (#[trigger] cols@[c])@ == b.column(c),
                r <= lh,
                out@.len() == r * rw,
                forall|k: int|
                    0 <= k < out@.len() ==> #[trigger] out@[k] as int == lane_product(a, b)[k],
            decreases lh - r,
        {
            let row = self.get_row(r);
            proof {
                lemma_row_len(a, r as int);
            }
            let mut c: usize = 0;
            while c < cols.len()
                invariant
                    a == self@,
                    b == rhs@,
                    a.well_shaped(),
                    b.well_shaped(),
                    lw == a.width,
                    lh == a.height,
                    rw == b.width,
                    rh == b.height,
                    lw == rh,
                    cols@.len() == rw,
                    forall|c: int| 0 <= c < rw ==> (#[trigger] cols@[c])@ == b.column(c),
                    r < lh,
                    c <= rw,
                    row@ == a.row(r as int),
                    row@.len() == lw,
                    out@.len() == r * rw + c,
                    forall|k: int|
                        0 <= k < out@.len() ==> #[trigger] out@[k] as int == lane_product(
                            a,
                            b,
                        )[k],
                decreases rw - c,
            {
                let cell = execute_mult_sum_simd(row, cols[c].as_slice());
                proof {
                    lemma_next_cell(r as int, c as int, rw as int, lh as int);
                }
                out.push(cell);
                c = c + 1;
            }
            proof {
                assert(r * rw + rw == (r + 1) * rw) by (nonlinear_arith);
            }
            r = r + 1;
        }
        proof {
            assert(as_ints(out@) =~= lane_product(a, b));
            assert(lh * rw == rw * lh) by (nonlinear_arith);
        }
        FloatMatrix::new(out, rw, lh)
    }

    /// The product `self * rhs`, of `rhs.width` columns and `self.height`
    /// rows. When either operand has no columns or no rows the result is the
    /// empty 0 by 0 matrix, whatever the other's shape. Otherwise the inner
    /// dimensions must agree, and both strategies give the same values.
    pub fn multiply(self, rhs: Self, strategy: MultiplyStrategy) -> (r: FloatMatrix<i128>)
        requires
            self@.is_degenerate() || rhs@.is_degenerate() || self@.width == rhs@.height,
        ensures
            self@.is_degenerate() || rhs@.is_degenerate() ==> r@ == (MatrixView {
                values: Seq::<i128>::empty(),
                width: 0,
                height: 0,
            }),
            !(self@.is_degenerate() || rhs@.is_degenerate()) ==> {
                &&& r@.width == rhs@.width
                &&& r@.height == self@.height
                &&& as_ints(r@.values) == naive_product(self@, rhs@)
            },
    {
        if self.is_degenerate() || rhs.is_degenerate() {
            let empty: Vec<i128> = Vec::new();
            return FloatMatrix::new(empty, 0, 0);
        }
        let ghost a = self@;
        let ghost b = rhs@;
        // both operands are well shaped, as the agreement of the strategies needs
        let _ = self.dim();
        let _ = rhs.dim();
        match strategy {
            MultiplyStrategy::Scalar => self.naive_mult(rhs),
            MultiplyStrategy::Vectorized => {
                let r = self.vectorized_mult(rhs);
                proof {
                    lemma_lane_product_is_naive(a, b);
                }
                r
            },
        }
    }
}

} // verus!
