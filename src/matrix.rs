//! Storage and layout of a dense row-major matrix: construction, rows,
//! columns and the transpose.
use vstd::arithmetic::div_mod::{
    lemma_fundamental_div_mod,
    lemma_fundamental_div_mod_converse,
    lemma_mod_bound,
};
use vstd::prelude::*;

verus! {

/// Mathematical model of a matrix: its values in row-major order (row index
/// varies slowest), its width (columns) and its height (rows).
pub struct MatrixView<T> {
    pub values: Seq<T>,
    pub width: nat,
    pub height: nat,
}

impl<T> MatrixView<T> {
    pub open spec fn well_shaped(self) -> bool {
        self.values.len() == self.width * self.height
    }

    /// A matrix with no columns or no rows.
    pub open spec fn is_degenerate(self) -> bool {
        self.width == 0 || self.height == 0
    }

    /// Row `r`: the `width` values starting at `r * width`.
    pub open spec fn row(self, r: int) -> Seq<T> {
        self.values.subrange(r * self.width, (r + 1) * self.width)
    }

    /// Column `c`: the value at `c` of each row, top to bottom.
    pub open spec fn column(self, c: int) -> Seq<T> {
        Seq::new(self.height, |i: int| self.values[i * self.width + c])
    }

    /// Dimensions swapped; output position `n` takes input position
    /// `n / height + (n % height) * width`.
    pub open spec fn transposed(self) -> MatrixView<T> {
        MatrixView {
            values: Seq::new(
                self.values.len(),
                |n: int| self.values[n / self.height as int + (n % self.height as int) * self.width],
            ),
            width: self.height,
            height: self.width,
        }
    }
}

/// `r * w + c` addresses a value of a `w` by `h` matrix when `r < h`, `c < w`.
pub proof fn lemma_cell_in_bounds(r: int, c: int, w: int, h: int)
    requires
        0 <= r < h,
        0 <= c < w,
    ensures
        0 <= r * w + c < w * h,
        r * w + c < (r + 1) * w,
        (r + 1) * w <= w * h,
{
    assert(0 <= r * w + c < w * h && r * w + c < (r + 1) * w && (r + 1) * w <= w * h)
        by (nonlinear_arith)
        requires
            0 <= r < h,
            0 <= c < w,
    ;
}

/// The index that the transpose reads is in range.
proof fn lemma_transpose_index(n: int, w: int, h: int)
    requires
        0 <= n < w * h,
        w > 0,
        h > 0,
    ensures
        0 <= n / h < w,
        0 <= n % h < h,
        0 <= n / h + (n % h) * w < w * h,
{
    lemma_fundamental_div_mod(n, h);
    lemma_mod_bound(n, h);
    let i = n / h;
    let j = n % h;
    assert(0 <= i < w) by (nonlinear_arith)
        requires
            n == h * i + j,
            0 <= j < h,
            0 <= n < w * h,
    ;
    lemma_cell_in_bounds(j, i, w, h);
}

/// Transposing twice gives back the matrix; the transpose swaps the
/// dimensions and stays well shaped.
pub proof fn lemma_transpose_involutive<T>(m: MatrixView<T>)
    requires
        m.well_shaped(),
    ensures
        m.transposed().width == m.height,
        m.transposed().height == m.width,
        m.transposed().well_shaped(),
        m.transposed().transposed() == m,
{
    let w = m.width as int;
    let h = m.height as int;
    let t = m.transposed();
    let t2 = t.transposed();
    assert(w * h == h * w) by (nonlinear_arith);
    assert forall|n: int| 0 <= n < t2.values.len() implies t2.values[n] == m.values[n] by {
        assert(w > 0 && h > 0) by (nonlinear_arith)
            requires
                0 <= n < w * h,
                w >= 0,
                h >= 0,
        ;
        let k = n / w + (n % w) * h;
        lemma_transpose_index(n, h, w);
        lemma_fundamental_div_mod_converse(k, h, n % w, n / w);
        lemma_fundamental_div_mod(n, w);
        assert((n % w) * h == h * (n % w)) by (nonlinear_arith);
        assert((n / w) * w == w * (n / w)) by (nonlinear_arith);
    }
    assert(t2.values =~= m.values);
}

/// A dense row-major matrix of `width` columns and `height` rows. Its
/// layout operations work for any element type; the exact products (see
/// `multiply`) take `i32` entries and give `i128` sums.
#[derive(Debug, PartialEq)]
pub struct FloatMatrix<T> {
    data: Vec<T>,
    width: usize,
    height: usize,
}

impl<T> View for FloatMatrix<T> {
    type V = MatrixView<T>;

    closed spec fn view(&self) -> MatrixView<T> {
        MatrixView { values: self.data@, width: self.width as nat, height: self.height as nat }
    }
}

impl<T: Clone> Clone for FloatMatrix<T> {
    /// A deep copy: a new vector holding a clone of each value.
    fn clone(&self) -> Self {
        proof {
            use_type_invariant(self);
        }
        FloatMatrix { data: self.data.clone(), width: self.width, height: self.height }
    }
}

impl<T> FloatMatrix<T> {
    #[verifier::type_invariant]
    spec fn inv(self) -> bool {
        self.data@.len() == self.width * self.height
    }

    /// Builds a `width` by `height` matrix from its values in row-major order.
    pub fn new(data: Vec<T>, width: usize, height: usize) -> (r: Self)
        requires
            data@.len() == width * height,
        ensures
            r@ == (MatrixView { values: data@, width: width as nat, height: height as nat }),
    {
        FloatMatrix { data, width, height }
    }

    /// Gives up the matrix, returning its values in row-major order.
    pub fn as_raw(self) -> (r: Vec<T>)
        ensures
            r@ == self@.values,
    {
        self.data
    }

    /// The dimension pair `(width, height)`; the values always number
    /// `width * height`.
    pub fn dim(&self) -> (r: (usize, usize))
        ensures
            r.0 == self@.width,
            r.1 == self@.height,
            self@.well_shaped(),
    {
        proof {
            use_type_invariant(self);
        }
        (self.width, self.height)
    }

    /// True when the matrix has no columns or no rows.
    pub fn is_degenerate(&self) -> (r: bool)
        ensures
            r == self@.is_degenerate(),
    {
        self.width == 0 || self.height == 0
    }

    /// Row `n` as a borrowed slice of `width` values.
    pub fn get_row(&self, n: usize) -> (r: &[T])
        requires
            n < self@.height,
        ensures
            r@ == self@.row(n as int),
    {
        let _len = self.data.len();
        proof {
            use_type_invariant(self);
            if self.width > 0 {
                lemma_cell_in_bounds(n as int, 0, self.width as int, self.height as int);
            } else {
                assert((n + 1) * 0 == 0) by (nonlinear_arith);
                assert(n * 0 == 0) by (nonlinear_arith);
            }
        }
        vstd::slice::slice_subrange(self.data.as_slice(), n * self.width, (n + 1) * self.width)
    }
}

impl<T: Copy> FloatMatrix<T> {
    /// The transposed matrix: dimensions swapped, value `(i, j)` moved to
    /// `(j, i)`.
    pub fn get_transpose(&self) -> (r: Self)
        ensures
            r@ == self@.transposed(),
    {
        proof {
            use_type_invariant(self);
        }
        let w = self.width;
        let h = self.height;
        let len = self.data.len();
        let mut transposed: Vec<T> = Vec::with_capacity(len);
        let mut n: usize = 0;
        while n < len
            invariant
                len == self.data@.len(),
                len == w * h,
                w == self@.width,
                h == self@.height,
                n <= len,
                transposed@ =~= self@.transposed().values.take(n as int),
            decreases len - n,
        {
            proof {
                lemma_transpose_index(n as int, w as int, h as int);
            }
            let k = n / h + (n % h) * w;
            transposed.push(self.data[k]);
            n = n + 1;
        }
        proof {
            assert(w * h == h * w) by (nonlinear_arith);
            assert(self@.transposed().values.take(len as int) =~= self@.transposed().values);
        }
        FloatMatrix { data: transposed, width: h, height: w }
    }

    /// The columns of the matrix, each gathered into its own contiguous
    /// vector of `height` values.
    pub fn column_buffers(&self) -> (r: Vec<Vec<T>>)
        ensures
            r@.len() == self@.width,
            forall|c: int| 0 <= c < r@.len() ==> (#[trigger] r@[c])@ == self@.column(c),
    {
        proof {
            use_type_invariant(self);
        }
        let w = self.width;
        let h = self.height;
        let len = self.data.len();
        let mut cols: Vec<Vec<T>> = Vec::with_capacity(w);
        let mut c: usize = 0;
        while c < w
            invariant
                len == self.data@.len(),
                self.data@.len() == w * h,
                w == self@.width,
                h == self@.height,
                c <= w,
                cols@.len() == c,
                forall|k: int| 0 <= k < c ==> (#[trigger] cols@[k])@ == self@.column(k),
            decreases w - c,
        {
            let mut col: Vec<T> = Vec::with_capacity(h);
            let mut v: usize = 0;
            while v < h
                invariant
                    len == self.data@.len(),
                    self.data@.len() == w * h,
                    w == self@.width,
                    h == self@.height,
                    c < w,
                    v <= h,
                    col@ =~= self@.column(c as int).take(v as int),
                decreases h - v,
            {
                proof {
                    lemma_cell_in_bounds(v as int, c as int, w as int, h as int);
                }
                col.push(self.data[v * w + c]);
                v = v + 1;
            }
            proof {
                assert(col@ =~= self@.column(c as int));
            }
            cols.push(col);
            c = c + 1;
        }
        cols
    }
}

} // verus!
