//! Choice of the plaintext width.
//!
//! A wider plaintext packs more bits into a cell and leaves less room for noise. A width is
//! admitted where the chance that a cell decodes wrongly stays within its share of the budget
//! of a query, which is `2^-(KAPPA + 1)` over all cells that a query reads; the widest width
//! that is admitted is chosen.
use vstd::prelude::*;

use crate::geometry;

verus! {

/// A query fails with a chance of at most `2^-KAPPA`.
pub const KAPPA: u32 = 40;

/// The widest plaintext that is tried.
pub const MAX_PLAINTEXT_BITS: u32 = 14;

/// Cells per row: `bucket_size` slots, each of which takes the cells of a fingerprint and a
/// value.
pub open spec fn row_cells(
    bucket_size: u32,
    fingerprint_bits: u32,
    value_bits: u32,
    plaintext_bits: u32,
) -> int {
    bucket_size * geometry::ceil_div(fingerprint_bits + value_bits, plaintext_bits as int)
}

/// Cells per row.
pub fn row_width(
    bucket_size: u32,
    fingerprint_bits: u32,
    value_bits: u32,
    plaintext_bits: u32,
) -> (w: u32)
    requires
        plaintext_bits > 0,
        fingerprint_bits + value_bits <= u32::MAX,
        row_cells(bucket_size, fingerprint_bits, value_bits, plaintext_bits) <= u32::MAX,
    ensures
        w == row_cells(bucket_size, fingerprint_bits, value_bits, plaintext_bits),
{
    let total: u32 = fingerprint_bits + value_bits;
    proof {
        geometry::lemma_ceil_div(total as int, plaintext_bits as int);
    }
    let cells: u32 = if total % plaintext_bits == 0 {
        total / plaintext_bits
    } else {
        total / plaintext_bits + 1
    };
    bucket_size * cells
}

/// Whether a width is admitted, where `admitted[i]` says it of width `i + 1`.
pub open spec fn is_admitted(admitted: Seq<bool>, plaintext_bits: int) -> bool {
    1 <= plaintext_bits <= admitted.len() && admitted[plaintext_bits - 1]
}

/// The widest width that is admitted, where `admitted[i]` says whether width `i + 1` is.
pub fn widest_admitted(admitted: &[bool]) -> (w: Option<u32>)
    requires
        admitted@.len() <= MAX_PLAINTEXT_BITS,
    ensures
        match w {
            Some(b) => is_admitted(admitted@, b as int) && forall|c: int|
                c > b ==> !is_admitted(admitted@, c),
            None => forall|c: int| !is_admitted(admitted@, c),
        },
{
    let mut b: usize = admitted.len();
    while b > 0
        invariant
            b <= admitted@.len() <= MAX_PLAINTEXT_BITS,
            forall|c: int| c > b ==> !is_admitted(admitted@, c),
        decreases b,
    {
        if admitted[b - 1] {
            return Some(b as u32);
        }
        b = b - 1;
    }
    None
}

/// `k` is the integer nearest to the square root of `n / w`, halves rounded up, and at least 1.
pub open spec fn is_fold(n: int, w: int, k: int) -> bool {
    &&& k >= 1
    &&& k > 1 ==> (2 * k - 1) * (2 * k - 1) * w <= 4 * n
    &&& 4 * n < (2 * k + 1) * (2 * k + 1) * w
}

/// Rows and columns of the near-square matrix that `n_rows` rows of `row_width` cells are
/// folded into: `k` rows stand side by side in one. Gives `k`, the rows and the columns.
pub fn reshape_dims(n_rows: u32, row_width: u32) -> (r: (u32, u32, u64))
    requires
        row_width > 0,
    ensures
        is_fold(n_rows as int, row_width as int, r.0 as int),
        r.1 == geometry::ceil_div(n_rows as int, r.0 as int),
        r.2 == r.0 * row_width,
{
    let n: u64 = n_rows as u64;
    let w: u64 = row_width as u64;
    let mut k: u64 = 1;
    let ghost wi = w as int;
    proof {
        assert(9 * w <= 0x9_ffff_ffff);
        assert(3int * 3 * wi == 9 * wi) by (nonlinear_arith);
    }
    while (2 * k + 1) * (2 * k + 1) * w <= 4 * n
        invariant
            1 <= k <= 0x1_0000,
            w >= 1,
            w <= u32::MAX,
            n <= u32::MAX,
            n == n_rows,
            w == row_width,
            k > 1 ==> (2 * k - 1) * (2 * k - 1) * w <= 4 * n,
            (2 * k + 1) * (2 * k + 1) <= u64::MAX,
            (2 * k + 1) * (2 * k + 1) * w <= u64::MAX,
            wi == w,
        decreases 0x1_0000 - k,
    {
        proof {
            let ki = k as int;
            let a = (2 * ki + 1) * (2 * ki + 1);
            assert(a <= a * wi) by (nonlinear_arith)
                requires
                    wi >= 1,
                    a == (2 * ki + 1) * (2 * ki + 1),
            ;
            assert(ki < 0x1_0000) by (nonlinear_arith)
                requires
                    (2 * ki + 1) * (2 * ki + 1) <= 4 * 0xffff_ffff,
                    ki >= 1,
            ;
            let b = (2 * (ki + 1) + 1) * (2 * (ki + 1) + 1);
            assert(b <= 3 * a) by (nonlinear_arith)
                requires
                    a == (2 * ki + 1) * (2 * ki + 1),
                    b == (2 * (ki + 1) + 1) * (2 * (ki + 1) + 1),
                    ki >= 1,
            ;
            assert(b * wi <= 3 * a * wi) by (nonlinear_arith)
                requires
                    b <= 3 * a,
                    wi >= 0,
            ;
            assert(3 * a * wi == 3 * (a * wi)) by (nonlinear_arith);
            assert(2 * (ki + 1) - 1 == 2 * ki + 1);
        }
        k = k + 1;
    }
    let fold: u32 = k as u32;
    proof {
        geometry::lemma_ceil_div(n_rows as int, fold as int);
        assert(fold * row_width <= u64::MAX) by (nonlinear_arith)
            requires
                fold <= 0x1_0000,
                row_width <= u32::MAX,
        ;
    }
    let rows: u32 = if n_rows % fold == 0 {
        n_rows / fold
    } else {
        n_rows / fold + 1
    };
    (fold, rows, (fold as u64) * (row_width as u64))
}

/// The fold is determined by the shape.
pub proof fn law_fold_unique(n: int, w: int, k1: int, k2: int)
    requires
        w > 0,
        is_fold(n, w, k1),
        is_fold(n, w, k2),
    ensures
        k1 == k2,
{
    lemma_fold_order(n, w, k1, k2);
    lemma_fold_order(n, w, k2, k1);
}

proof fn lemma_fold_order(n: int, w: int, k1: int, k2: int)
    requires
        w > 0,
        is_fold(n, w, k1),
        is_fold(n, w, k2),
    ensures
        k1 >= k2,
{
    let a = (2 * k1 + 1) * (2 * k1 + 1);
    let b = (2 * k2 - 1) * (2 * k2 - 1);
    if k1 < k2 {
        assert(a <= b) by (nonlinear_arith)
            requires
                a == (2 * k1 + 1) * (2 * k1 + 1),
                b == (2 * k2 - 1) * (2 * k2 - 1),
                1 <= k1,
                k1 + 1 <= k2,
        ;
        assert(a * w <= b * w) by (nonlinear_arith)
            requires
                a <= b,
                w > 0,
        ;
    }
}

} // verus!
