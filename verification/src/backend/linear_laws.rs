//! Products of vectors and matrices as sums over all of their entries.
use vstd::arithmetic::power2::*;
use vstd::prelude::*;

use crate::arith;
use crate::backend::edits;
use crate::backend::frodo::backend;
use crate::backend::frodo::patching;
use crate::backend::frodo::scaling;
use crate::backend::gemm;
use crate::backend::matvec;
use crate::matrix;
use crate::matrix::Matrix;
use crate::server::respond;

verus! {

/// The sum of `f(0)`, `f(1)` and so on, `n` numbers in all.
pub open spec fn total(f: spec_fn(int) -> int, n: nat) -> int
    decreases n,
{
    if n == 0 {
        0
    } else {
        total(f, (n - 1) as nat) + f(n - 1)
    }
}

/// A strided dot product is the sum of the products of all entries that it pairs.
pub proof fn law_dot_is_sum(
    x: Seq<u32>,
    x0: int,
    xs: int,
    y: Seq<u32>,
    y0: int,
    ys: int,
    lo: int,
    n: nat,
)
    ensures
        arith::dot(x, x0, xs, y, y0, ys, lo, lo + n) == total(
            |t: int| x[x0 + (lo + t) * xs] * y[y0 + (lo + t) * ys],
            n,
        ),
    decreases n,
{
    if n > 0 {
        law_dot_is_sum(x, x0, xs, y, y0, ys, lo, (n - 1) as nat);
    }
}

proof fn lemma_same_total(f: spec_fn(int) -> int, g: spec_fn(int) -> int, n: nat)
    requires
        forall|t: int| 0 <= t < n ==> #[trigger] f(t) == g(t),
    ensures
        total(f, n) == total(g, n),
    decreases n,
{
    if n > 0 {
        lemma_same_total(f, g, (n - 1) as nat);
    }
}

proof fn lemma_plain_dot(
    x: Seq<u32>,
    x0: int,
    xs: int,
    y: Seq<u32>,
    y0: int,
    ys: int,
    n: nat,
    f: spec_fn(int) -> int,
)
    requires
        forall|t: int| 0 <= t < n ==> #[trigger] f(t) == x[x0 + t * xs] * y[y0 + t * ys],
    ensures
        arith::dot(x, x0, xs, y, y0, ys, 0, n as int) == total(f, n),
{
    law_dot_is_sum(x, x0, xs, y, y0, ys, 0, n);
    let g = |t: int| x[x0 + (0 + t) * xs] * y[y0 + (0 + t) * ys];
    assert forall|t: int| 0 <= t < n implies #[trigger] f(t) == g(t) by {}
    lemma_same_total(f, g, n);
}

/// Every cell of a product is the row of the left factor times the column of the right one,
/// modulo `2^32`.
pub proof fn law_product_is_sum(m: Matrix, a: Matrix, b: Matrix, i: int, j: int)
    requires
        m.is_product(a, b),
        0 <= i < a.spec_rows(),
        0 <= j < b.spec_cols(),
    ensures
        m.spec_rows() == a.spec_rows(),
        m.spec_cols() == b.spec_cols(),
        m.at(i, j) == total(|t: int| a.at(i, t) * b.at(t, j), a.spec_cols() as nat)
            % 0x1_0000_0000,
{
    let k = a.spec_cols() as int;
    let n = b.spec_cols() as int;
    let f = |t: int| a.at(i, t) * b.at(t, j);
    assert forall|t: int| 0 <= t < k implies #[trigger] f(t) == a.spec_elems()[i * k + t * 1]
        * b.spec_elems()[j + t * n] by {
        assert(i * k + t * 1 == i * k + t);
        assert(j + t * n == t * n + j);
    }
    lemma_plain_dot(a.spec_elems(), i * k, 1, b.spec_elems(), j, n, k as nat, f);
    assert(m.at(i, j) == matrix::product_cell(a.spec_elems(), b.spec_elems(), k, n, i, j));
}

/// A response has one entry per column of the database: the query times that column.
pub proof fn law_response_is_sum(q: Seq<u32>, d: Matrix, j: int)
    requires
        0 <= j < d.spec_cols(),
    ensures
        respond::response_row(q, d).len() == d.spec_cols(),
        respond::response_row(q, d)[j] == total(|t: int| q[t] * d.at(t, j), d.spec_rows() as nat)
            % 0x1_0000_0000,
{
    let n = d.spec_cols() as int;
    let k = d.spec_rows() as int;
    let f = |t: int| q[t] * d.at(t, j);
    assert(0 * k == 0) by (nonlinear_arith);
    assert forall|t: int| 0 <= t < k implies #[trigger] f(t) == q[0 * k + t * 1]
        * d.spec_elems()[j + t * n] by {
        assert(j + t * n == t * n + j);
    }
    lemma_plain_dot(q, 0 * k, 1, d.spec_elems(), j, n, k as nat, f);
}

/// An answer has one entry per column: the query vector times that column of the database.
pub proof fn law_answer_is_sum(b: Seq<u32>, db: Seq<u32>, width: int, j: int)
    requires
        0 <= j < width,
    ensures
        backend::answer(b, db, width).len() == width,
        backend::answer(b, db, width)[j] == total(|t: int| b[t] * db[t * width + j], b.len())
            % 0x1_0000_0000,
{
    let f = |t: int| b[t] * db[t * width + j];
    assert forall|t: int| 0 <= t < b.len() implies #[trigger] f(t) == b[0 + t * 1] * db[j + t
        * width] by {
        assert(j + t * width == t * width + j);
    }
    lemma_plain_dot(b, 0, 1, db, j, width, b.len(), f);
}

/// A mask has one entry per column: the secret times that column of the hint.
pub proof fn law_mask_is_sum(secret: Seq<u32>, h: Seq<u32>, lwe_dim: int, width: int, j: int)
    requires
        0 <= j < width,
        0 <= lwe_dim,
    ensures
        patching::mask(secret, h, lwe_dim, width).len() == width,
        patching::mask(secret, h, lwe_dim, width)[j] == total(
            |t: int| secret[t] * h[t * width + j],
            lwe_dim as nat,
        ) % 0x1_0000_0000,
{
    let f = |t: int| secret[t] * h[t * width + j];
    assert forall|t: int| 0 <= t < lwe_dim implies #[trigger] f(t) == secret[0 + t * 1] * h[j + t
        * width] by {
        assert(j + t * width == t * width + j);
    }
    lemma_plain_dot(secret, 0, 1, h, j, width, lwe_dim as nat, f);
}

/// The hint has one row per column of the public matrix and one column per column of the
/// database: each cell is the product of those two columns.
pub proof fn law_hint_is_sum(
    h: Seq<u32>,
    a: Seq<u32>,
    d: Seq<u32>,
    lwe_dim: int,
    width: int,
    n_rows: nat,
    k: int,
    j: int,
)
    requires
        edits::is_hint(h, a, d, lwe_dim, width, n_rows as int),
        0 <= k < lwe_dim,
        0 <= j < width,
    ensures
        h.len() == lwe_dim * width,
        h[k * width + j] == total(|t: int| a[t * lwe_dim + k] * d[t * width + j], n_rows)
            % 0x1_0000_0000,
{
    let f = |t: int| a[t * lwe_dim + k] * d[t * width + j];
    assert forall|t: int| 0 <= t < n_rows implies #[trigger] f(t) == a[k + t * lwe_dim] * d[j + t
        * width] by {
        assert(k + t * lwe_dim == t * lwe_dim + k);
        assert(j + t * width == t * width + j);
    }
    lemma_plain_dot(a, k, lwe_dim, d, j, width, n_rows, f);
    assert(arith::cell(h, width, k, j) == h[k * width + j]);
}

/// The transpose of `a` times `d`, added to `h`.
pub proof fn law_gemm_is_sum(
    out: Seq<u32>,
    h: Seq<u32>,
    a: Seq<u32>,
    d: Seq<u32>,
    lwe_dim: int,
    width: int,
    n_rows: nat,
    k: int,
    j: int,
)
    requires
        gemm::is_gemm(out, h, a, d, lwe_dim, width, n_rows as int),
        0 <= k < lwe_dim,
        0 <= j < width,
    ensures
        out.len() == h.len(),
        out[k * width + j] == (h[k * width + j] + total(
            |t: int| a[t * lwe_dim + k] * d[t * width + j],
            n_rows,
        )) % 0x1_0000_0000,
{
    let f = |t: int| a[t * lwe_dim + k] * d[t * width + j];
    assert forall|t: int| 0 <= t < n_rows implies #[trigger] f(t) == a[k + t * lwe_dim] * d[j + t
        * width] by {
        assert(k + t * lwe_dim == t * lwe_dim + k);
        assert(j + t * width == t * width + j);
    }
    lemma_plain_dot(a, k, lwe_dim, d, j, width, n_rows, f);
    assert(arith::cell(out, width, k, j) == out[k * width + j]);
}

/// A row vector times a matrix, added to `acc`.
pub proof fn law_matvec_is_sum(acc: Seq<u32>, d: Seq<u32>, q: Seq<u32>, n: nat, j: int)
    requires
        0 <= j < acc.len(),
    ensures
        matvec::matvec(acc, d, q, n as int).len() == acc.len(),
        matvec::matvec(acc, d, q, n as int)[j] == (acc[j] + total(
            |t: int| q[t] * d[t * acc.len() + j],
            n,
        )) % 0x1_0000_0000,
{
    let w = acc.len() as int;
    let f = |t: int| q[t] * d[t * w + j];
    assert forall|t: int| 0 <= t < n implies #[trigger] f(t) == q[0 + t * 1] * d[j + t * w] by {
        assert(j + t * w == t * w + j);
    }
    lemma_plain_dot(q, 0, 1, d, j, w, n, f);
    lemma_same_total(f, |t: int| q[t] * d[t * acc.len() + j], n);
}

/// A matrix times a column vector, added to `b`.
pub proof fn law_matvec_rows_is_sum(b: Seq<u32>, a: Seq<u32>, s: Seq<u32>, i: int)
    requires
        0 <= i < b.len(),
    ensures
        matvec::matvec_rows(b, a, s).len() == b.len(),
        matvec::matvec_rows(b, a, s)[i] == (b[i] + total(
            |t: int| a[i * s.len() + t] * s[t],
            s.len(),
        )) % 0x1_0000_0000,
{
    let f = |t: int| a[i * s.len() + t] * s[t];
    assert forall|t: int| 0 <= t < s.len() implies #[trigger] f(t) == a[i * s.len() + t * 1] * s[0
        + t * 1] by {}
    lemma_plain_dot(a, i * s.len(), 1, s, 0, 1, s.len(), f);
}

/// Rounding goes to the nearest multiple of the scale, halves up, around the modulus.
pub proof fn law_rounding(y: u32, plaintext_bits: u32)
    requires
        1 <= plaintext_bits <= 31,
    ensures
        scaling::delta(plaintext_bits) == pow2((32 - plaintext_bits) as nat),
        scaling::rounded(y, plaintext_bits) == ((y + pow2((31 - plaintext_bits) as nat))
            % 0x1_0000_0000) / pow2((32 - plaintext_bits) as nat) as int,
{
    scaling::lemma_delta(plaintext_bits);
    let d = scaling::delta(plaintext_bits);
    let r = (y + d / 2) % 0x1_0000_0000;
    vstd::arithmetic::div_mod::lemma_div_pos_is_pos(r, d);
    assert(r / d <= r) by (nonlinear_arith)
        requires
            r >= 0,
            d >= 1,
    ;
}

/// Decoding takes the mask off every entry of a response and rounds what is left.
pub proof fn law_decoding(
    response: Seq<u32>,
    secret: Seq<u32>,
    h: Seq<u32>,
    lwe_dim: int,
    width: int,
    plaintext_bits: u32,
    j: int,
)
    requires
        0 <= j < width,
    ensures
        ({
            let cells = backend::decode(response, secret, h, lwe_dim, width, plaintext_bits);
            &&& cells.len() == width
            &&& cells[j] == scaling::rounded(
                ((response[j] - patching::mask(secret, h, lwe_dim, width)[j]) % 0x1_0000_0000)
                    as u32,
                plaintext_bits,
            )
        }),
{
}

/// Cells are stored row by row.
pub proof fn law_cells_by_row(m: Matrix, i: int, j: int)
    requires
        m.wf(),
        0 <= i < m.spec_rows(),
        0 <= j < m.spec_cols(),
    ensures
        m.spec_elems().len() == m.spec_rows() * m.spec_cols(),
        m.at(i, j) == m.spec_elems()[i * m.spec_cols() + j],
        m.spec_row(i).len() == m.spec_cols(),
        m.spec_row(i)[j] == m.at(i, j),
{
    arith::lemma_cell_row(i, m.spec_rows() as int, m.spec_cols() as int);
}

} // verus!
