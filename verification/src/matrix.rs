//! Row-major matrices of residues modulo `2^32`.
use vstd::prelude::*;

use crate::arith;
use crate::backend::prg;
use crate::hash::prg_u32_stream;
use crate::params::SEED_LEN;

verus! {

/// Why a matrix operation fails.
#[derive(Debug, Clone, Copy, PartialEq, Eq, Structural)]
pub enum MatrixError {
    /// The requested dimensions overflow `usize`.
    DimensionOverflow,
    /// The length of the backing buffer is not `rows * cols`.
    LengthMismatch,
    /// The shapes do not fit together.
    ShapeMismatch,
    /// A row or column index is out of bounds.
    OutOfBounds,
}

impl MatrixError {
    /// The text of the error.
    pub open spec fn text(self) -> Seq<char> {
        match self {
            MatrixError::DimensionOverflow => "matrix dimensions overflow usize"@,
            MatrixError::LengthMismatch => "backing buffer length does not match dimensions"@,
            MatrixError::ShapeMismatch => "incompatible matrix shapes"@,
            MatrixError::OutOfBounds => "matrix index out of bounds"@,
        }
    }

    /// The text of the error.
    pub fn message(&self) -> (s: &'static str)
        ensures
            s@ == self.text(),
    {
        match self {
            MatrixError::DimensionOverflow => "matrix dimensions overflow usize",
            MatrixError::LengthMismatch => "backing buffer length does not match dimensions",
            MatrixError::ShapeMismatch => "incompatible matrix shapes",
            MatrixError::OutOfBounds => "matrix index out of bounds",
        }
    }
}

/// Row-major matrix over the integers modulo `2^32`.
#[derive(Debug, PartialEq, Eq)]
pub struct Matrix {
    rows: u32,
    cols: u32,
    elems: Vec<u32>,
}

impl Clone for Matrix {
    fn clone(&self) -> (m: Self)
        ensures
            m.spec_rows() == self.spec_rows(),
            m.spec_cols() == self.spec_cols(),
            m.spec_elems() == self.spec_elems(),
    {
        let m = Matrix { rows: self.rows, cols: self.cols, elems: self.elems.clone() };
        assert(m.elems@ =~= self.elems@);
        m
    }
}

/// Cell `(i, j)` of the product of an `m`-by-`k` and a `k`-by-`n` matrix.
pub open spec fn product_cell(a: Seq<u32>, b: Seq<u32>, k: int, n: int, i: int, j: int) -> u32 {
    arith::wrap(arith::dot(a, i * k, 1, b, j, n, 0, k))
}

/// How many terms of cell `(r, c)` are summed up when the loops stand at `(i, p, j)`.
spec fn steps(r: int, c: int, i: int, p: int, j: int, k: int) -> int {
    if r < i {
        k
    } else if r == i {
        if c < j {
            p + 1
        } else {
            p
        }
    } else {
        0
    }
}

/// Each cell of `out` holds the terms summed up so far.
spec fn partial_product(
    out: Seq<u32>,
    a: Seq<u32>,
    b: Seq<u32>,
    m: int,
    k: int,
    n: int,
    i: int,
    p: int,
    j: int,
) -> bool {
    &&& out.len() == m * n
    &&& forall|r: int, c: int|
        0 <= r < m && 0 <= c < n ==> #[trigger] arith::cell(out, n, r, c) == arith::wrap(
            arith::dot(a, r * k, 1, b, c, n, 0, steps(r, c, i, p, j, k)),
        )
}

impl Matrix {
    /// Number of rows.
    pub closed spec fn spec_rows(self) -> u32 {
        self.rows
    }

    /// Number of columns.
    pub closed spec fn spec_cols(self) -> u32 {
        self.cols
    }

    /// The cells, row by row.
    pub closed spec fn spec_elems(self) -> Seq<u32> {
        self.elems@
    }

    /// The buffer holds `rows * cols` cells.
    pub open spec fn wf(self) -> bool {
        self.spec_elems().len() == self.spec_rows() * self.spec_cols()
    }

    /// Cell `(i, j)`.
    pub open spec fn at(self, i: int, j: int) -> u32 {
        arith::cell(self.spec_elems(), self.spec_cols() as int, i, j)
    }

    /// Row `i`.
    pub open spec fn spec_row(self, i: int) -> Seq<u32> {
        self.spec_elems().subrange(
            i * self.spec_cols(),
            i * self.spec_cols() + self.spec_cols(),
        )
    }

    /// `self` is the product `a * b`.
    pub open spec fn is_product(self, a: Matrix, b: Matrix) -> bool {
        &&& self.wf()
        &&& self.spec_rows() == a.spec_rows()
        &&& self.spec_cols() == b.spec_cols()
        &&& forall|i: int, j: int|
            0 <= i < a.spec_rows() && 0 <= j < b.spec_cols() ==> #[trigger] self.at(i, j)
                == product_cell(
                a.spec_elems(),
                b.spec_elems(),
                a.spec_cols() as int,
                b.spec_cols() as int,
                i,
                j,
            )
    }

    /// `rows * cols`, if it fits.
    pub fn flat_len(rows: u32, cols: u32) -> (len: Result<usize, MatrixError>)
        ensures
            rows * cols <= usize::MAX ==> len == Ok::<usize, MatrixError>((rows * cols) as usize),
            rows * cols > usize::MAX ==> len == Err::<usize, MatrixError>(
                MatrixError::DimensionOverflow,
            ),
    {
        match (rows as usize).checked_mul(cols as usize) {
            Some(len) => Ok(len),
            None => Err(MatrixError::DimensionOverflow),
        }
    }

    /// The zero matrix of the given shape.
    pub fn zeros(rows: u32, cols: u32) -> (res: Result<Matrix, MatrixError>)
        ensures
            rows * cols > usize::MAX ==> res == Err::<Matrix, MatrixError>(
                MatrixError::DimensionOverflow,
            ),
            rows * cols <= usize::MAX ==> {
                &&& res is Ok
                &&& res->Ok_0.wf()
                &&& res->Ok_0.spec_rows() == rows
                &&& res->Ok_0.spec_cols() == cols
                &&& forall|i: int|
                    0 <= i < rows * cols ==> #[trigger] res->Ok_0.spec_elems()[i] == 0
            },
    {
        match Matrix::flat_len(rows, cols) {
            Ok(len) => {
                let elems: Vec<u32> = vec![0u32; len];
                Ok(Matrix { rows, cols, elems })
            },
            Err(e) => Err(e),
        }
    }

    /// Wraps an existing buffer.
    pub fn from_elems(rows: u32, cols: u32, elems: Vec<u32>) -> (res: Result<Matrix, MatrixError>)
        ensures
            rows * cols > usize::MAX ==> res == Err::<Matrix, MatrixError>(
                MatrixError::DimensionOverflow,
            ),
            rows * cols <= usize::MAX && elems@.len() != rows * cols ==> res == Err::<
                Matrix,
                MatrixError,
            >(MatrixError::LengthMismatch),
            elems@.len() == rows * cols ==> {
                &&& res is Ok
                &&& res->Ok_0.wf()
                &&& res->Ok_0.spec_rows() == rows
                &&& res->Ok_0.spec_cols() == cols
                &&& res->Ok_0.spec_elems() == elems@
            },
    {
        assert(elems.len() == elems@.len());
        let len: usize = match Matrix::flat_len(rows, cols) {
            Ok(len) => len,
            Err(e) => {
                return Err(e);
            },
        };
        if elems.len() != len {
            return Err(MatrixError::LengthMismatch);
        }
        Ok(Matrix { rows, cols, elems })
    }

    /// Expands a matrix from a seed: the first `rows * cols` words of its key stream.
    pub fn from_seed(rows: u32, cols: u32, seed: &[u8; SEED_LEN]) -> (res: Result<
        Matrix,
        MatrixError,
    >)
        ensures
            rows * cols > usize::MAX ==> res == Err::<Matrix, MatrixError>(
                MatrixError::DimensionOverflow,
            ),
            rows * cols <= usize::MAX ==> {
                &&& res is Ok
                &&& res->Ok_0.wf()
                &&& res->Ok_0.spec_rows() == rows
                &&& res->Ok_0.spec_cols() == cols
                &&& res->Ok_0.spec_elems() == prg::keystream(seed@, 0, (rows * cols) as nat)
            },
    {
        match Matrix::flat_len(rows, cols) {
            Ok(len) => {
                let elems: Vec<u32> = prg_u32_stream(seed, len);
                Ok(Matrix { rows, cols, elems })
            },
            Err(e) => Err(e),
        }
    }

    /// Number of rows.
    pub fn rows(&self) -> (n: u32)
        ensures
            n == self.spec_rows(),
    {
        self.rows
    }

    /// Number of columns.
    pub fn cols(&self) -> (n: u32)
        ensures
            n == self.spec_cols(),
    {
        self.cols
    }

    /// The cells, row by row.
    pub fn as_slice(&self) -> (s: &[u32])
        ensures
            s@ == self.spec_elems(),
    {
        self.elems.as_slice()
    }

    /// The cells, row by row, for writing.
    pub fn as_mut_slice(&mut self) -> (s: &mut [u32])
        ensures
            s@ == old(self).spec_elems(),
            final(self).spec_elems() == final(s)@,
            final(self).spec_rows() == old(self).spec_rows(),
            final(self).spec_cols() == old(self).spec_cols(),
    {
        self.elems.as_mut_slice()
    }

    /// Borrows row `r`.
    pub fn row(&self, r: u32) -> (res: Result<&[u32], MatrixError>)
        requires
            self.wf(),
        ensures
            r >= self.spec_rows() ==> res == Err::<&[u32], MatrixError>(MatrixError::OutOfBounds),
            r < self.spec_rows() ==> res is Ok && res->Ok_0@ == self.spec_row(r as int),
    {
        if r >= self.rows {
            return Err(MatrixError::OutOfBounds);
        }
        let cols: usize = self.cols as usize;
        proof {
            lemma_row_bounds(r as int, self.rows as int, cols as int);
            assert(self.elems.len() == self.elems@.len());
        }
        let start: usize = (r as usize) * cols;
        Ok(vstd::slice::slice_subrange(self.elems.as_slice(), start, start + cols))
    }

    /// Borrows row `r` for writing.
    pub fn row_mut(&mut self, r: u32) -> (res: Result<&mut [u32], MatrixError>)
        requires
            old(self).wf(),
        ensures
            final(self).spec_rows() == old(self).spec_rows(),
            final(self).spec_cols() == old(self).spec_cols(),
            match res {
                Ok(s) => {
                    let start = r * old(self).spec_cols();
                    let end = start + old(self).spec_cols();
                    &&& r < old(self).spec_rows()
                    &&& s@ == old(self).spec_row(r as int)
                    &&& final(self).spec_elems() == old(self).spec_elems().take(start) + final(s)@
                        + old(self).spec_elems().skip(end)
                },
                Err(e) => {
                    &&& r >= old(self).spec_rows()
                    &&& e == MatrixError::OutOfBounds
                    &&& *final(self) == *old(self)
                },
            },
    {
        if r >= self.rows {
            return Err(MatrixError::OutOfBounds);
        }
        let cols: usize = self.cols as usize;
        proof {
            lemma_row_bounds(r as int, self.rows as int, cols as int);
            assert(self.elems.len() == self.elems@.len());
        }
        let start: usize = (r as usize) * cols;
        let (head, rest) = self.elems.as_mut_slice().split_at_mut(start);
        let (mid, tail) = rest.split_at_mut(cols);
        Ok(mid)
    }
}

impl Matrix {
    /// Copies column `col`.
    pub fn column(&self, col: u32) -> (res: Result<Vec<u32>, MatrixError>)
        requires
            self.wf(),
        ensures
            col >= self.spec_cols() ==> res == Err::<Vec<u32>, MatrixError>(
                MatrixError::OutOfBounds,
            ),
            col < self.spec_cols() ==> res is Ok && res->Ok_0@ == Seq::new(
                self.spec_rows() as nat,
                |i: int| self.at(i, col as int),
            ),
    {
        if col >= self.cols {
            return Err(MatrixError::OutOfBounds);
        }
        let cols: usize = self.cols as usize;
        let rows: usize = self.rows as usize;
        let mut out: Vec<u32> = Vec::with_capacity(rows);
        assert(self.elems.len() == self.elems@.len());
        let mut r: usize = 0;
        while r < rows
            invariant
                r <= rows == self.rows,
                cols == self.cols,
                col < cols,
                self.elems@.len() == rows * cols <= usize::MAX,
                out@.len() == r,
                forall|i: int| 0 <= i < r ==> #[trigger] out@[i] == self.at(i, col as int),
            decreases rows - r,
        {
            proof {
                arith::lemma_cell(r as int, col as int, rows as int, cols as int);
            }
            out.push(self.elems[r * cols + col as usize]);
            r = r + 1;
        }
        proof {
            assert(out@ =~= Seq::new(self.spec_rows() as nat, |i: int| self.at(i, col as int)));
        }
        Ok(out)
    }

    /// Cell `(row, col)`.
    pub fn get(&self, row: u32, col: u32) -> (res: Result<u32, MatrixError>)
        requires
            self.wf(),
        ensures
            row < self.spec_rows() && col < self.spec_cols() ==> res == Ok::<u32, MatrixError>(
                self.at(row as int, col as int),
            ),
            row >= self.spec_rows() || col >= self.spec_cols() ==> res == Err::<u32, MatrixError>(
                MatrixError::OutOfBounds,
            ),
    {
        if row >= self.rows || col >= self.cols {
            return Err(MatrixError::OutOfBounds);
        }
        proof {
            arith::lemma_cell(row as int, col as int, self.rows as int, self.cols as int);
            assert(self.elems.len() == self.elems@.len());
        }
        Ok(self.elems[(row as usize) * (self.cols as usize) + col as usize])
    }

    /// Writes cell `(row, col)`.
    pub fn set(&mut self, row: u32, col: u32, v: u32) -> (res: Result<(), MatrixError>)
        requires
            old(self).wf(),
        ensures
            final(self).wf(),
            final(self).spec_rows() == old(self).spec_rows(),
            final(self).spec_cols() == old(self).spec_cols(),
            row < old(self).spec_rows() && col < old(self).spec_cols() ==> res == Ok::<
                (),
                MatrixError,
            >(()) && final(self).spec_elems() == old(self).spec_elems().update(
                row * old(self).spec_cols() + col,
                v,
            ),
            row >= old(self).spec_rows() || col >= old(self).spec_cols() ==> res == Err::<
                (),
                MatrixError,
            >(MatrixError::OutOfBounds) && *final(self) == *old(self),
    {
        if row >= self.rows || col >= self.cols {
            return Err(MatrixError::OutOfBounds);
        }
        proof {
            arith::lemma_cell(row as int, col as int, self.rows as int, self.cols as int);
            assert(self.elems.len() == self.elems@.len());
        }
        let at: usize = (row as usize) * (self.cols as usize) + col as usize;
        self.elems.set(at, v);
        Ok(())
    }

    /// The product `self * rhs` modulo `2^32`.
    pub fn mul(&self, rhs: &Matrix) -> (res: Result<Matrix, MatrixError>)
        requires
            self.wf(),
            rhs.wf(),
        ensures
            self.spec_cols() != rhs.spec_rows() ==> res == Err::<Matrix, MatrixError>(
                MatrixError::ShapeMismatch,
            ),
            self.spec_cols() == rhs.spec_rows() && self.spec_rows() * rhs.spec_cols() > usize::MAX
                ==> res == Err::<Matrix, MatrixError>(MatrixError::DimensionOverflow),
            self.spec_cols() == rhs.spec_rows() && self.spec_rows() * rhs.spec_cols()
                <= usize::MAX ==> res is Ok && res->Ok_0.is_product(*self, *rhs),
    {
        if self.cols != rhs.rows {
            return Err(MatrixError::ShapeMismatch);
        }
        let m: usize = self.rows as usize;
        let k: usize = self.cols as usize;
        let n: usize = rhs.cols as usize;
        let mut out: Matrix = match Matrix::zeros(self.rows, rhs.cols) {
            Ok(z) => z,
            Err(e) => {
                return Err(e);
            },
        };
        let ghost a = self.elems@;
        let ghost b = rhs.elems@;
        let mut i: usize = 0;
        proof {
            assert(self.elems.len() == self.elems@.len());
            assert(rhs.elems.len() == rhs.elems@.len());
            assert(out.elems.len() == out.elems@.len());
            assert forall|r: int, c: int| 0 <= r < m && 0 <= c < n implies #[trigger] arith::cell(
                out.elems@,
                n as int,
                r,
                c,
            ) == arith::wrap(
                arith::dot(a, r * k, 1, b, c, n as int, 0, steps(r, c, 0, 0, 0, k as int)),
            ) by {
                arith::lemma_cell(r, c, m as int, n as int);
                assert(out.spec_elems()[r * n + c] == 0);
            }
        }
        while i < m
            invariant
                i <= m,
                m == self.rows == out.rows,
                k == self.cols == rhs.rows,
                n == rhs.cols == out.cols,
                a == self.elems@,
                b == rhs.elems@,
                a.len() == m * k <= usize::MAX,
                b.len() == k * n <= usize::MAX,
                m * n <= usize::MAX,
                partial_product(
                    out.elems@,
                    a,
                    b,
                    m as int,
                    k as int,
                    n as int,
                    i as int,
                    0,
                    0,
                ),
            decreases m - i,
        {
            let mut p: usize = 0;
            while p < k
                invariant
                    i < m,
                    p <= k,
                    m == self.rows == out.rows,
                    k == self.cols == rhs.rows,
                    n == rhs.cols == out.cols,
                    a == self.elems@,
                    b == rhs.elems@,
                    a.len() == m * k <= usize::MAX,
                    b.len() == k * n <= usize::MAX,
                    m * n <= usize::MAX,
                    partial_product(
                        out.elems@,
                        a,
                        b,
                        m as int,
                        k as int,
                        n as int,
                        i as int,
                        p as int,
                        0,
                    ),
                decreases k - p,
            {
                proof {
                    arith::lemma_cell(i as int, p as int, m as int, k as int);
                }
                let coeff: u32 = self.elems[i * k + p];
                let mut j: usize = 0;
                while j < n
                    invariant
                        i < m,
                        p < k,
                        j <= n,
                        m == self.rows == out.rows,
                        k == self.cols == rhs.rows,
                        n == rhs.cols == out.cols,
                        a == self.elems@,
                        b == rhs.elems@,
                        coeff == a[i * k + p],
                        b.len() == k * n <= usize::MAX,
                        m * n <= usize::MAX,
                        partial_product(
                            out.elems@,
                            a,
                            b,
                            m as int,
                            k as int,
                            n as int,
                            i as int,
                            p as int,
                            j as int,
                        ),
                    decreases n - j,
                {
                    let ghost before = out.elems@;
                    proof {
                        arith::lemma_cell(p as int, j as int, k as int, n as int);
                        arith::lemma_cell(i as int, j as int, m as int, n as int);
                    }
                    let x: u32 = out.elems[i * n + j];
                    let y: u32 = rhs.elems[p * n + j];
                    let v: u32 = arith::mac(x, coeff, y);
                    out.elems.set(i * n + j, v);
                    proof {
                        arith::lemma_cell_update(
                            before,
                            m as int,
                            n as int,
                            i as int,
                            j as int,
                            v,
                        );
                        assert(arith::cell(before, n as int, i as int, j as int) == x);
                        let s = arith::dot(a, i * k, 1, b, j as int, n as int, 0, p as int);
                        let t = arith::term(a, i * k, 1, b, j as int, n as int, p as int);
                        assert(t == coeff * y) by {
                            assert(j + p * n == p * n + j);
                        }
                        arith::lemma_wrap_add(s, t);
                    }
                    j = j + 1;
                }
                p = p + 1;
            }
            i = i + 1;
        }
        proof {
            assert forall|r: int, c: int| 0 <= r < m && 0 <= c < n implies #[trigger] out.at(r, c)
                == product_cell(a, b, k as int, n as int, r, c) by {
                assert(arith::cell(out.elems@, n as int, r, c) == arith::wrap(
                    arith::dot(a, r * k, 1, b, c, n as int, 0, k as int),
                ));
            }
        }
        Ok(out)
    }

    /// The row vector `vec * self`.
    pub fn left_mul_row_vec(&self, vec: &[u32]) -> (res: Result<Vec<u32>, MatrixError>)
        requires
            self.wf(),
        ensures
            vec@.len() != self.spec_rows() ==> res == Err::<Vec<u32>, MatrixError>(
                MatrixError::ShapeMismatch,
            ),
            vec@.len() == self.spec_rows() ==> res is Ok && res->Ok_0@ == Seq::new(
                self.spec_cols() as nat,
                |j: int|
                    product_cell(
                        vec@,
                        self.spec_elems(),
                        self.spec_rows() as int,
                        self.spec_cols() as int,
                        0,
                        j,
                    ),
            ),
    {
        if vec.len() != self.rows as usize {
            return Err(MatrixError::ShapeMismatch);
        }
        let rows: usize = self.rows as usize;
        let cols: usize = self.cols as usize;
        let mut out: Vec<u32> = vec![0u32; cols];
        let ghost m = self.elems@;
        let mut i: usize = 0;
        assert(self.elems.len() == self.elems@.len());
        while i < rows
            invariant
                i <= rows == self.rows == vec@.len(),
                cols == self.cols,
                m == self.elems@,
                m.len() == rows * cols <= usize::MAX,
                out@.len() == cols,
                forall|j: int|
                    0 <= j < cols ==> #[trigger] out@[j] == arith::wrap(
                        arith::dot(vec@, 0, 1, m, j, cols as int, 0, i as int),
                    ),
            decreases rows - i,
        {
            let coeff: u32 = vec[i];
            let ghost before = out@;
            if coeff != 0 {
                let mut j: usize = 0;
                while j < cols
                    invariant
                        i < rows == self.rows == vec@.len(),
                        cols == self.cols,
                        m == self.elems@,
                        m.len() == rows * cols <= usize::MAX,
                        coeff == vec@[i as int],
                        j <= cols,
                        out@.len() == cols == before.len(),
                        forall|c: int|
                            0 <= c < cols ==> #[trigger] before[c] == arith::wrap(
                                arith::dot(vec@, 0, 1, m, c, cols as int, 0, i as int),
                            ),
                        forall|c: int|
                            0 <= c < cols ==> #[trigger] out@[c] == if c < j {
                                arith::wrap(
                                    arith::dot(vec@, 0, 1, m, c, cols as int, 0, i + 1),
                                )
                            } else {
                                before[c]
                            },
                    decreases cols - j,
                {
                    proof {
                        arith::lemma_cell(i as int, j as int, rows as int, cols as int);
                    }
                    let y: u32 = self.elems[i * cols + j];
                    let x: u32 = out[j];
                    out.set(j, arith::mac(x, coeff, y));
                    proof {
                        let s = arith::dot(vec@, 0, 1, m, j as int, cols as int, 0, i as int);
                        let t = arith::term(vec@, 0, 1, m, j as int, cols as int, i as int);
                        assert(t == coeff * y) by {
                            assert(j + i * cols == i * cols + j);
                        }
                        assert(x == before[j as int]);
                        arith::lemma_wrap_add(s, t);
                    }
                    j = j + 1;
                }
            } else {
                proof {
                    assert forall|j: int| 0 <= j < cols implies #[trigger] out@[j] == arith::wrap(
                        arith::dot(vec@, 0, 1, m, j, cols as int, 0, i + 1),
                    ) by {
                        assert(vec@[0 + i * 1] == 0);
                        assert(arith::term(vec@, 0, 1, m, j, cols as int, i as int) == 0) by (
                        nonlinear_arith)
                            requires
                                arith::term(vec@, 0, 1, m, j, cols as int, i as int) == vec@[0 + i
                                    * 1] * m[j + i * cols],
                                vec@[0 + i * 1] == 0,
                        ;
                    }
                }
            }
            i = i + 1;
        }
        proof {
            assert(out@ =~= Seq::new(
                self.spec_cols() as nat,
                |j: int|
                    product_cell(
                        vec@,
                        self.spec_elems(),
                        self.spec_rows() as int,
                        self.spec_cols() as int,
                        0,
                        j,
                    ),
            )) by {
                assert(0 * rows == 0);
            }
        }
        Ok(out)
    }

    /// The column vector `self * vec`.
    pub fn right_mul_col_vec(&self, vec: &[u32]) -> (res: Result<Vec<u32>, MatrixError>)
        requires
            self.wf(),
        ensures
            vec@.len() != self.spec_cols() ==> res == Err::<Vec<u32>, MatrixError>(
                MatrixError::ShapeMismatch,
            ),
            vec@.len() == self.spec_cols() ==> res is Ok && res->Ok_0@ == Seq::new(
                self.spec_rows() as nat,
                |i: int|
                    product_cell(
                        self.spec_elems(),
                        vec@,
                        self.spec_cols() as int,
                        1,
                        i,
                        0,
                    ),
            ),
    {
        if vec.len() != self.cols as usize {
            return Err(MatrixError::ShapeMismatch);
        }
        let rows: usize = self.rows as usize;
        let cols: usize = self.cols as usize;
        let ghost m = self.elems@;
        let mut out: Vec<u32> = Vec::with_capacity(rows);
        let mut i: usize = 0;
        assert(self.elems.len() == self.elems@.len());
        while i < rows
            invariant
                i <= rows == self.rows,
                cols == self.cols == vec@.len(),
                m == self.elems@,
                m.len() == rows * cols <= usize::MAX,
                out@.len() == i,
                forall|r: int|
                    0 <= r < i ==> #[trigger] out@[r] == product_cell(
                        m,
                        vec@,
                        cols as int,
                        1,
                        r,
                        0,
                    ),
            decreases rows - i,
        {
            let mut acc: u32 = 0;
            let mut j: usize = 0;
            while j < cols
                invariant
                    i < rows == self.rows,
                    j <= cols == self.cols == vec@.len(),
                    m == self.elems@,
                    m.len() == rows * cols <= usize::MAX,
                    acc == arith::wrap(arith::dot(m, i * cols, 1, vec@, 0, 1, 0, j as int)),
                decreases cols - j,
            {
                proof {
                    arith::lemma_cell(i as int, j as int, rows as int, cols as int);
                    arith::lemma_wrap_add(
                        arith::dot(m, i * cols, 1, vec@, 0, 1, 0, j as int),
                        arith::term(m, i * cols, 1, vec@, 0, 1, j as int),
                    );
                }
                acc = arith::mac(acc, self.elems[i * cols + j], vec[j]);
                j = j + 1;
            }
            out.push(acc);
            i = i + 1;
        }
        proof {
            assert(out@ =~= Seq::new(
                self.spec_rows() as nat,
                |i: int| product_cell(self.spec_elems(), vec@, self.spec_cols() as int, 1, i, 0),
            ));
        }
        Ok(out)
    }

    /// Bytes of the cells, at four bytes each.
    pub fn num_bytes(&self) -> (n: usize)
        requires
            self.spec_elems().len() * 4 <= usize::MAX,
        ensures
            n == self.spec_elems().len() * 4,
    {
        self.elems.len() * 4
    }

    /// Number of cells.
    pub fn num_elems(&self) -> (n: usize)
        ensures
            n == self.spec_elems().len(),
    {
        self.elems.len()
    }
}

/// Adds `b` to `a`, cell by cell, modulo `2^32`.
pub fn vec_add_assign(a: &mut [u32], b: &[u32])
    requires
        old(a)@.len() == b@.len(),
    ensures
        final(a)@ == Seq::new(b@.len(), |i: int| arith::wrap(old(a)@[i] + b@[i])),
{
    let n: usize = b.len();
    let mut i: usize = 0;
    while i < n
        invariant
            i <= n == b@.len() == a@.len(),
            old(a)@.len() == n,
            forall|k: int|
                0 <= k < n ==> #[trigger] a@[k] == if k < i {
                    arith::wrap(old(a)@[k] + b@[k])
                } else {
                    old(a)@[k]
                },
        decreases n - i,
    {
        a[i] = arith::add_mod(a[i], b[i]);
        i = i + 1;
    }
    assert(a@ =~= Seq::new(b@.len(), |i: int| arith::wrap(old(a)@[i] + b@[i])));
}

/// Subtracts `b` from `a`, cell by cell, modulo `2^32`.
pub fn vec_sub_assign(a: &mut [u32], b: &[u32])
    requires
        old(a)@.len() == b@.len(),
    ensures
        final(a)@ == Seq::new(b@.len(), |i: int| arith::wrap(old(a)@[i] - b@[i])),
{
    let n: usize = b.len();
    let mut i: usize = 0;
    while i < n
        invariant
            i <= n == b@.len() == a@.len(),
            old(a)@.len() == n,
            forall|k: int|
                0 <= k < n ==> #[trigger] a@[k] == if k < i {
                    arith::wrap(old(a)@[k] - b@[k])
                } else {
                    old(a)@[k]
                },
        decreases n - i,
    {
        a[i] = arith::sub_mod(a[i], b[i]);
        i = i + 1;
    }
    assert(a@ =~= Seq::new(b@.len(), |i: int| arith::wrap(old(a)@[i] - b@[i])));
}

/// Subtracting what was added gives back the vector.
pub proof fn law_add_sub(a: Seq<u32>, b: Seq<u32>)
    requires
        a.len() == b.len(),
    ensures
        ({
            let sum = Seq::new(b.len(), |i: int| arith::wrap(a[i] + b[i]));
            Seq::new(b.len(), |i: int| arith::wrap(sum[i] - b[i])) == a
        }),
{
    let sum = Seq::new(b.len(), |i: int| arith::wrap(a[i] + b[i]));
    let back = Seq::new(b.len(), |i: int| arith::wrap(sum[i] - b[i]));
    assert forall|i: int| 0 <= i < a.len() implies back[i] == a[i] by {
        arith::lemma_wrap_add(a[i] + b[i], -(b[i] as int));
        arith::lemma_wrap_id(a[i]);
    }
    assert(back =~= a);
}

/// A row vector times a matrix is the only row of the one-row matrix product.
pub proof fn law_left_mul_is_mul(v: Matrix, m: Matrix, product: Matrix)
    requires
        v.wf(),
        m.wf(),
        v.spec_rows() == 1,
        v.spec_cols() == m.spec_rows(),
        product.is_product(v, m),
    ensures
        product.spec_elems() == Seq::new(
            m.spec_cols() as nat,
            |j: int|
                product_cell(
                    v.spec_elems(),
                    m.spec_elems(),
                    m.spec_rows() as int,
                    m.spec_cols() as int,
                    0,
                    j,
                ),
        ),
{
    let n = m.spec_cols() as int;
    let expect = Seq::new(
        n as nat,
        |j: int|
            product_cell(v.spec_elems(), m.spec_elems(), m.spec_rows() as int, n, 0, j),
    );
    assert forall|j: int| 0 <= j < n implies product.spec_elems()[j] == expect[j] by {
        assert(product.at(0, j) == expect[j]);
    }
    assert(product.spec_elems() =~= expect);
}

/// A matrix times a column vector is the only column of the one-column matrix product.
pub proof fn law_right_mul_is_mul(m: Matrix, v: Matrix, product: Matrix)
    requires
        v.wf(),
        m.wf(),
        v.spec_cols() == 1,
        v.spec_rows() == m.spec_cols(),
        product.is_product(m, v),
    ensures
        product.spec_elems() == Seq::new(
            m.spec_rows() as nat,
            |i: int|
                product_cell(m.spec_elems(), v.spec_elems(), m.spec_cols() as int, 1, i, 0),
        ),
{
    let n = m.spec_rows() as int;
    let expect = Seq::new(
        n as nat,
        |i: int| product_cell(m.spec_elems(), v.spec_elems(), m.spec_cols() as int, 1, i, 0),
    );
    assert forall|i: int| 0 <= i < n implies product.spec_elems()[i] == expect[i] by {
        assert(product.at(i, 0) == expect[i]);
    }
    assert(product.spec_elems() =~= expect);
}

proof fn lemma_row_bounds(r: int, rows: int, cols: int)
    requires
        0 <= r < rows,
        0 <= cols,
    ensures
        0 <= r * cols,
        r * cols + cols <= rows * cols,
{
    assert(0 <= r * cols) by (nonlinear_arith)
        requires
            0 <= r,
            0 <= cols,
    ;
    assert(r * cols + cols <= rows * cols) by (nonlinear_arith)
        requires
            r + 1 <= rows,
            0 <= cols,
    ;
}

} // verus!
