//! Computation of the hint.
use vstd::prelude::*;

use crate::arith;
use crate::backend::edits;
use crate::backend::gemm;
use crate::backend::parallel;

verus! {

/// Computes the hint of a segment: the transpose of `a` times the database.
pub fn compute_hint(a: &[u32], db: &[u32], n_rows: u32, lwe_dim: u32, row_width: u32) -> (h: Vec<
    u32,
>)
    requires
        a@.len() == n_rows * lwe_dim,
        db@.len() == n_rows * row_width,
        lwe_dim * row_width <= usize::MAX,
    ensures
        edits::is_hint(h@, a@, db@, lwe_dim as int, row_width as int, n_rows as int),
{
    let dim: usize = lwe_dim as usize;
    let width: usize = row_width as usize;
    let ghost l = lwe_dim as int;
    let ghost w = row_width as int;
    let ghost n = n_rows as int;
    let mut h: Vec<u32> = vec![0; dim * width];
    let ghost zero = h@;
    proof {
        if l > 0 {
            vstd::arithmetic::div_mod::lemma_div_multiples_vanish(n, l);
            vstd::arithmetic::div_mod::lemma_mod_multiples_basic(n, l);
            vstd::arithmetic::mul::lemma_mul_is_commutative(n, l);
        }
    }
    gemm::gemm_at_d_accumulate(h.as_mut_slice(), a, db, dim, width);
    proof {
        assert forall|k: int, j: int| 0 <= k < l && 0 <= j < w implies #[trigger] arith::cell(
            h@,
            w,
            k,
            j,
        ) == arith::wrap(arith::dot(a@, k, l, db@, j, w, 0, n)) by {
            arith::lemma_cell(k, j, l, w);
            assert(arith::cell(zero, w, k, j) == 0);
            assert(arith::cell(h@, w, k, j) == gemm::gemm_cell(zero, a@, db@, l, w, k, j, 0, n));
        }
    }
    h
}

/// Cell `(k, j)` of the hint, summed over the first `n` database rows.
spec fn partial(a: Seq<u32>, db: Seq<u32>, l: int, w: int, k: int, j: int, n: int) -> u32 {
    arith::wrap(arith::dot(a, k, l, db, j, w, 0, n))
}

/// Adds `a[i][k] * db[i][j]` to cell `(k, j)` of the hint, for one `i` and `k` and all `j`.
fn add_row(
    h: &mut [u32],
    a: &[u32],
    db: &[u32],
    Ghost(n): Ghost<int>,
    dim: usize,
    width: usize,
    i: usize,
    k: usize,
)
    requires
        a@.len() == n * dim,
        db@.len() == n * width,
        old(h)@.len() == dim * width,
        0 <= i < n,
        k < dim,
        forall|j: int|
            0 <= j < width ==> #[trigger] arith::cell(old(h)@, width as int, k as int, j)
                == partial(a@, db@, dim as int, width as int, k as int, j, i as int),
    ensures
        final(h)@.len() == old(h)@.len(),
        forall|r: int, j: int|
            0 <= r < dim && 0 <= j < width ==> #[trigger] arith::cell(
                final(h)@,
                width as int,
                r,
                j,
            ) == if r == k {
                partial(a@, db@, dim as int, width as int, k as int, j, i + 1)
            } else {
                arith::cell(old(h)@, width as int, r, j)
            },
{
    let ghost l = dim as int;
    let ghost w = width as int;
    let ghost h0 = h@;
    assert(a.len() == a@.len() && db.len() == db@.len() && h.len() == h@.len());
    proof {
        arith::lemma_cell(i as int, k as int, n, l);
    }
    let aik: u32 = a[i * dim + k];
    let mut j: usize = 0;
    while j < width
        invariant
            j <= width == w,
            dim == l,
            a@.len() == n * dim <= usize::MAX,
            db@.len() == n * width <= usize::MAX,
            h@.len() == h0.len() == l * w <= usize::MAX,
            0 <= i < n,
            k < dim,
            aik == a@[i * l + k],
            forall|x: int|
                0 <= x < w ==> #[trigger] arith::cell(h0, w, k as int, x) == partial(
                    a@,
                    db@,
                    l,
                    w,
                    k as int,
                    x,
                    i as int,
                ),
            forall|r: int, x: int|
                0 <= r < l && 0 <= x < w ==> #[trigger] arith::cell(h@, w, r, x) == if r == k && x
                    < j {
                    partial(a@, db@, l, w, k as int, x, i + 1)
                } else {
                    arith::cell(h0, w, r, x)
                },
        decreases width - j,
    {
        proof {
            arith::lemma_cell(i as int, j as int, n, w);
            arith::lemma_cell(k as int, j as int, l, w);
        }
        let at: usize = k * width + j;
        let ghost before = h@;
        let v: u32 = arith::mac(h[at], aik, db[i * width + j]);
        h[at] = v;
        proof {
            arith::lemma_cell_update(before, l, w, k as int, j as int, v);
            assert(arith::cell(before, w, k as int, j as int) == partial(
                a@,
                db@,
                l,
                w,
                k as int,
                j as int,
                i as int,
            ));
            assert(k + i * l == i * l + k);
            assert(j + i * w == i * w + j);
            arith::lemma_wrap_add(
                arith::dot(a@, k as int, l, db@, j as int, w, 0, i as int),
                arith::term(a@, k as int, l, db@, j as int, w, i as int),
            );
        }
        j = j + 1;
    }
}

/// Computes the rows `k0..k1` of the hint, which are zero before.
fn hint_band(
    h: &mut [u32],
    a: &[u32],
    db: &[u32],
    n_rows: usize,
    dim: usize,
    width: usize,
    k0: usize,
    k1: usize,
)
    requires
        a@.len() == n_rows * dim,
        db@.len() == n_rows * width,
        old(h)@.len() == dim * width,
        k0 <= k1 <= dim,
        forall|r: int, j: int|
            k0 <= r < k1 && 0 <= j < width ==> #[trigger] arith::cell(
                old(h)@,
                width as int,
                r,
                j,
            ) == 0,
    ensures
        final(h)@.len() == old(h)@.len(),
        forall|r: int, j: int|
            0 <= r < dim && 0 <= j < width ==> #[trigger] arith::cell(
                final(h)@,
                width as int,
                r,
                j,
            ) == if k0 <= r < k1 {
                partial(a@, db@, dim as int, width as int, r, j, n_rows as int)
            } else {
                arith::cell(old(h)@, width as int, r, j)
            },
{
    let ghost l = dim as int;
    let ghost w = width as int;
    let ghost h0 = h@;
    let mut i: usize = 0;
    while i < n_rows
        invariant
            i <= n_rows,
            l == dim,
            w == width,
            a@.len() == n_rows * dim,
            db@.len() == n_rows * width,
            h@.len() == h0.len() == dim * width,
            k0 <= k1 <= dim,
            forall|r: int, j: int|
                0 <= r < l && 0 <= j < w ==> #[trigger] arith::cell(h@, w, r, j) == if k0 <= r
                    < k1 {
                    partial(a@, db@, l, w, r, j, i as int)
                } else {
                    arith::cell(h0, w, r, j)
                },
        decreases n_rows - i,
    {
        let mut k: usize = k0;
        while k < k1
            invariant
                k0 <= k <= k1 <= dim,
                i < n_rows,
                l == dim,
                w == width,
                a@.len() == n_rows * dim,
                db@.len() == n_rows * width,
                h@.len() == h0.len() == dim * width,
                forall|r: int, j: int|
                    0 <= r < l && 0 <= j < w ==> #[trigger] arith::cell(h@, w, r, j) == if k0 <= r
                        < k {
                        partial(a@, db@, l, w, r, j, i + 1)
                    } else if k <= r < k1 {
                        partial(a@, db@, l, w, r, j, i as int)
                    } else {
                        arith::cell(h0, w, r, j)
                    },
            decreases k1 - k,
        {
            add_row(h, a, db, Ghost(n_rows as int), dim, width, i, k);
            k = k + 1;
        }
        i = i + 1;
    }
}

/// Computes the same hint in bands of whole hint rows, one band per worker, where there is
/// more than one worker and enough to do.
pub fn compute_hint_parallel(
    a: &[u32],
    db: &[u32],
    n_rows: u32,
    lwe_dim: u32,
    row_width: u32,
    threads: usize,
) -> (h: Vec<u32>)
    requires
        a@.len() == n_rows * lwe_dim,
        db@.len() == n_rows * row_width,
        lwe_dim * row_width <= usize::MAX,
    ensures
        edits::is_hint(h@, a@, db@, lwe_dim as int, row_width as int, n_rows as int),
{
    let dim: usize = lwe_dim as usize;
    let width: usize = row_width as usize;
    let ghost l = lwe_dim as int;
    let ghost w = row_width as int;
    proof {
        assert(0 <= n_rows * lwe_dim <= u32::MAX * u32::MAX) by (nonlinear_arith)
            requires
                0 <= n_rows <= u32::MAX,
                0 <= lwe_dim <= u32::MAX,
        ;
        assert(n_rows * lwe_dim * row_width <= u32::MAX * u32::MAX * u32::MAX)
            by (nonlinear_arith)
            requires
                0 <= n_rows * lwe_dim <= u32::MAX * u32::MAX,
                0 <= row_width <= u32::MAX,
        ;
    }
    let macs: u128 = (n_rows as u128) * (lwe_dim as u128) * (row_width as u128);
    if threads <= 1 || macs < parallel::PAR_MIN_HINT_MACS as u128 {
        return compute_hint(a, db, n_rows, lwe_dim, row_width);
    }
    let mut h: Vec<u32> = vec![0; dim * width];
    let band: usize = band_rows(dim, threads);
    proof {
        assert forall|r: int, j: int| 0 <= r < l && 0 <= j < w implies #[trigger] arith::cell(
            h@,
            w,
            r,
            j,
        ) == 0 by {
            arith::lemma_cell(r, j, l, w);
        }
    }
    let mut k0: usize = 0;
    while k0 < dim
        invariant
            k0 <= dim,
            l == lwe_dim == dim,
            w == row_width == width,
            band >= 1,
            a@.len() == n_rows * lwe_dim,
            db@.len() == n_rows * row_width,
            h@.len() == dim * width,
            forall|r: int, j: int|
                0 <= r < l && 0 <= j < w ==> #[trigger] arith::cell(h@, w, r, j) == if r < k0 {
                    partial(a@, db@, l, w, r, j, n_rows as int)
                } else {
                    0
                },
        decreases dim - k0,
    {
        let k1: usize = if dim - k0 < band {
            dim
        } else {
            k0 + band
        };
        hint_band(h.as_mut_slice(), a, db, n_rows as usize, dim, width, k0, k1);
        k0 = k1;
    }
    h
}

/// Hint rows per worker.
fn band_rows(dim: usize, threads: usize) -> (n: usize)
    requires
        threads > 0,
    ensures
        n >= 1,
        dim > 0 ==> n == parallel::chunk_len(dim as int, 1, threads as int),
{
    if dim == 0 {
        return 1;
    }
    proof {
        parallel::lemma_chunk_len_bound(dim as int, 1, threads as int);
    }
    parallel::balanced_chunk_len(dim, 1, threads)
}

} // verus!
