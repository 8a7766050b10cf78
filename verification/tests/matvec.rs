//! Matrix-vector kernels.
use ikpir::backend::matvec::{
    matvec_accumulate, matvec_accumulate_par, matvec_rows_accumulate, par_chunk_rows, rows_pass,
};

/// Deterministic xorshift so failures reproduce without a rand dep.
fn fill_pseudorandom(buf: &mut [u32], mut state: u32) {
    for cell in buf {
        state ^= state << 13;
        state ^= state >> 17;
        state ^= state << 5;
        *cell = state;
    }
}

fn naive(acc: &mut [u32], d: &[u32], q: &[u32]) {
    let width = acc.len();
    for (i, &qi) in q.iter().enumerate() {
        for j in 0..width {
            acc[j] = acc[j].wrapping_add(qi.wrapping_mul(d[i * width + j]));
        }
    }
}

/// Every blocking level (widths straddling each `R` threshold) and
/// every tail length agrees with the naive loop bit-for-bit.
#[test]
fn matvec_matches_naive_across_shapes() {
    // (n, width): widths pick each R in {16, 8, 4, 2, 1}; n values
    // exercise full blocks, tails, and n < R.
    let shapes = [
        (1usize, 1usize),
        (7, 3),
        (16, 29),
        (33, 128),
        (129, 129),
        (100, 517),
        (65, 1024),
        (5, 2049),
        (3, 208),
        (5, 4096),
        (5, 4097),
        (3, 12000),
        (17, 11138),
    ];
    for (n, width) in shapes {
        let mut d = vec![0u32; n * width];
        let mut q = vec![0u32; n];
        fill_pseudorandom(&mut d, 0xC0FF_EE00 ^ ((n as u32) << 12) ^ width as u32);
        fill_pseudorandom(&mut q, 0xBEEF_0000 | width as u32);

        let mut expected = vec![0u32; width];
        naive(&mut expected, &d, &q);
        let mut got = vec![0u32; width];
        matvec_accumulate(&mut got, &d, &q);
        assert_eq!(got, expected, "mismatch at n={n} width={width}");
    }
}

/// `matvec_accumulate` folds into a non-zero accumulator (the decode
/// path relies on this to compute `residual − sᵀ·H` via negation).
#[test]
fn matvec_accumulates_in_place() {
    let (n, width) = (10, 40);
    let mut d = vec![0u32; n * width];
    let mut q = vec![0u32; n];
    fill_pseudorandom(&mut d, 0x1234_5678);
    fill_pseudorandom(&mut q, 0x9ABC_DEF0);

    let mut base = vec![0u32; width];
    fill_pseudorandom(&mut base, 0x0F0F_0F0F);

    let mut expected = base.clone();
    naive(&mut expected, &d, &q);
    let mut got = base;
    matvec_accumulate(&mut got, &d, &q);
    assert_eq!(got, expected);
}

/// Degenerate shapes are no-ops, not panics.
#[test]
fn matvec_empty_inputs_are_noops() {
    let mut acc: [u32; 0] = [];
    matvec_accumulate(&mut acc, &[], &[1, 2, 3]);

    let mut acc = [7u32, 8];
    matvec_accumulate(&mut acc, &[], &[]);
    assert_eq!(acc, [7, 8]);
}

fn naive_rows(b: &mut [u32], a: &[u32], s: &[u32]) {
    let n = s.len();
    for (bi, row) in b.iter_mut().zip(a.chunks_exact(n)) {
        for (&x, &y) in row.iter().zip(s) {
            *bi = bi.wrapping_add(x.wrapping_mul(y));
        }
    }
}

/// Every row-blocking level and tail length agrees with the naive
/// per-row dot bit-for-bit, and folding starts from the incoming
/// `b` (the `b = A·s + e` call site seeds `b` with the errors).
#[test]
fn rows_kernel_matches_naive_across_shapes() {
    // (rows, n): rows exercise full R=8 blocks, tails, rows < R;
    // n covers odd lengths. All shapes stay under the cache-size
    // threshold, so force the R=2 path explicitly too.
    let shapes = [
        (1usize, 1usize),
        (7, 3),
        (8, 29),
        (17, 128),
        (100, 517),
        (63, 1275),
    ];
    for (rows, n) in shapes {
        let mut a = vec![0u32; rows * n];
        let mut s = vec![0u32; n];
        fill_pseudorandom(&mut a, 0x5EED_0000 ^ ((rows as u32) << 10) ^ n as u32);
        fill_pseudorandom(&mut s, 0xFACE_0000 | n as u32);

        let mut base = vec![0u32; rows];
        fill_pseudorandom(&mut base, 0xE44_0E44);

        let mut expected = base.clone();
        naive_rows(&mut expected, &a, &s);

        let mut got = base.clone();
        matvec_rows_accumulate(&mut got, &a, &s);
        assert_eq!(got, expected, "adaptive mismatch at rows={rows} n={n}");

        // Both monomorphised levels, regardless of the size cutoff.
        let mut got8 = base.clone();
        rows_pass::<8>(&mut got8, &a, &s);
        assert_eq!(got8, expected, "R=8 mismatch at rows={rows} n={n}");
        let mut got2 = base;
        rows_pass::<2>(&mut got2, &a, &s);
        assert_eq!(got2, expected, "R=2 mismatch at rows={rows} n={n}");
    }
}

/// Degenerate shapes are no-ops, not panics.
#[test]
fn rows_kernel_empty_inputs_are_noops() {
    let mut b: [u32; 0] = [];
    matvec_rows_accumulate(&mut b, &[], &[1, 2]);

    let mut b = [3u32, 4];
    matvec_rows_accumulate(&mut b, &[], &[]);
    assert_eq!(b, [3, 4]);
}

/// The partition by rows and the wrapping sum are bit-identical to
/// the naive loop for chunkings that split rows unevenly, including
/// a chunk size larger than the row count (single-task edge).
#[test]
fn parallel_matvec_matches_naive_across_chunkings() {
    let (n, width) = (103usize, 37usize);
    let mut d = vec![0u32; n * width];
    let mut q = vec![0u32; n];
    fill_pseudorandom(&mut d, 0xC0DE_C0DE);
    fill_pseudorandom(&mut q, 0xF00D_F00D);

    let mut expected = vec![0u32; width];
    naive(&mut expected, &d, &q);

    for chunk_rows in [1usize, 7, 64, 200] {
        let mut got = vec![0u32; width];
        matvec_accumulate_par(&mut got, &d, &q, chunk_rows);
        assert_eq!(got, expected, "mismatch at chunk_rows={chunk_rows}");
    }
}

/// A large shape, with disjoint writes per row.
#[test]
fn parallel_rows_kernel_matches_naive() {
    let (rows, n) = (2100usize, 512usize); // 1.07M cells
    let mut a = vec![0u32; rows * n];
    let mut s = vec![0u32; n];
    fill_pseudorandom(&mut a, 0xAB1E_5EED);
    fill_pseudorandom(&mut s, 0x00DD_BA11);

    let mut expected = vec![0u32; rows];
    naive_rows(&mut expected, &a, &s);
    let mut got = vec![0u32; rows];
    matvec_rows_accumulate(&mut got, &a, &s);
    assert_eq!(got, expected);
}

#[test]
fn chunks_have_at_least_their_floor() {
    assert_eq!(par_chunk_rows(10, 4), 64);
    assert_eq!(par_chunk_rows(1000, 4), 250);
    assert_eq!(par_chunk_rows(1001, 4), 251);
}
