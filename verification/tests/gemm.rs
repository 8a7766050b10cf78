//! The blocked product.
use ikpir::backend::gemm::gemm_at_d_accumulate;

fn fill_pseudorandom(buf: &mut [u32], mut state: u32) {
    for cell in buf {
        state ^= state << 13;
        state ^= state >> 17;
        state ^= state << 5;
        *cell = state;
    }
}

/// The rank-one updates, one after the other; a zero factor is passed over.
fn naive(h: &mut [u32], a: &[u32], d: &[u32], lwe_dim: usize, width: usize) {
    let n_rows = a.len() / lwe_dim;
    for i in 0..n_rows {
        let a_row = &a[i * lwe_dim..(i + 1) * lwe_dim];
        let d_row = &d[i * width..(i + 1) * width];
        for (k, &aik) in a_row.iter().enumerate() {
            if aik == 0 {
                continue;
            }
            let h_row = &mut h[k * width..(k + 1) * width];
            for (hj, &dj) in h_row.iter_mut().zip(d_row) {
                *hj = hj.wrapping_add(aik.wrapping_mul(dj));
            }
        }
    }
}

/// Shapes straddle KC blocks (n = KC, n < KC, n mod KC ≠ 0), MR
/// k-tails (lwe mod 4 ∈ {0,1,2,3}), NR width-tails (w mod 16 ≠ 0),
/// and degenerate sizes.
#[test]
fn gemm_matches_naive_across_shapes() {
    let shapes = [
        // (n_rows, lwe_dim, width)
        (1usize, 1usize, 1usize),
        (3, 7, 5),
        (256, 33, 112), // full x86 KC block, k-tail 1, no j-tail
        (513, 34, 112), // KC block + tail rows on both arches
        (300, 64, 29),  // width < NR: pure j-tail tile
        (100, 16, 517), // j-tail 5
        (37, 48, 832),  // wide, no tails except contraction
        (600, 10, 40),  // contraction tail + k-tail 2 + j-tail 8
        (64, 8, 2049),  // j-tail 1
    ];
    for (n, lwe, w) in shapes {
        let mut a = vec![0u32; n * lwe];
        let mut d = vec![0u32; n * w];
        fill_pseudorandom(&mut a, 0xA11C_E500 ^ ((n as u32) << 8) ^ w as u32);
        fill_pseudorandom(&mut d, 0xD00D_0000 | lwe as u32);

        let mut expected = vec![0u32; lwe * w];
        naive(&mut expected, &a, &d, lwe, w);
        let mut got = vec![0u32; lwe * w];
        gemm_at_d_accumulate(&mut got, &a, &d, lwe, w);
        assert_eq!(got, expected, "mismatch at n={n} lwe={lwe} w={w}");
    }
}

/// Accumulates into a non-zero `h` (the contract callers rely on).
#[test]
fn gemm_accumulates_in_place() {
    let (n, lwe, w) = (50, 10, 40);
    let mut a = vec![0u32; n * lwe];
    let mut d = vec![0u32; n * w];
    fill_pseudorandom(&mut a, 0x1357_9BDF);
    fill_pseudorandom(&mut d, 0x2468_ACE0);

    let mut base = vec![0u32; lwe * w];
    fill_pseudorandom(&mut base, 0x0F1E_2D3C);

    let mut expected = base.clone();
    naive(&mut expected, &a, &d, lwe, w);
    let mut got = base;
    gemm_at_d_accumulate(&mut got, &a, &d, lwe, w);
    assert_eq!(got, expected);
}

/// Degenerate shapes are no-ops, not panics.
#[test]
fn gemm_empty_inputs_are_noops() {
    let mut h: [u32; 0] = [];
    gemm_at_d_accumulate(&mut h, &[], &[], 0, 0);
    gemm_at_d_accumulate(&mut h, &[], &[], 4, 0);

    let mut h = [1u32, 2, 3, 4];
    gemm_at_d_accumulate(&mut h, &[], &[], 2, 2);
    assert_eq!(h, [1, 2, 3, 4]);
}
