//! The ternary-error backend.
use ikpir::backend::frodo::backend::{
    queue_slot, setup_with_seed, setup_with_seed_parallel, FrodoClientState, FrodoPirBackend,
};
use ikpir::backend::frodo::hint::{compute_hint, compute_hint_parallel};
use ikpir::backend::frodo::params::FrodoConfig;
use ikpir::backend::frodo::patching::apply_patch_row_level;
use ikpir::backend::frodo::sampler::sample_a;
use ikpir::backend::frodo::scaling::{round_p_to_q, round_q_to_p, scale};
use ikpir::backend::matvec::matvec_rows_accumulate;
use ikpir::backend::parallel::PAR_MIN_HINT_MACS;
use ikpir::backend::patch::row_level_batch_rows;
use ikpir::backend::{
    BackendWireSize, ClientUpdateMode, HintPatchMode, IncrementalPirBackend, IndexPirBackend,
    ParallelSetupBackend, PrecomputingPirBackend, ResponseRewind,
};
use rand::{Rng, SeedableRng};
use rand_chacha::ChaCha20Rng;

fn masks(state: &FrodoClientState) -> Vec<Option<Vec<u32>>> {
    (0..state.prepared_len())
        .map(|i| state.prepared_mask(i).cloned())
        .collect()
}

fn compute_c(secret: &[u32], hint: &[u32], row_width: usize) -> Vec<u32> {
    let mut c = vec![0u32; row_width];
    for (k, &s) in secret.iter().enumerate() {
        for (j, cell) in c.iter_mut().enumerate() {
            *cell = cell.wrapping_add(s.wrapping_mul(hint[k * row_width + j]));
        }
    }
    c
}

fn make_db(n_rows: u32, row_width: u32, pb: u32) -> Vec<u32> {
    let mask = (1u32 << pb) - 1;
    (0..n_rows * row_width)
        .map(|i| (i.wrapping_mul(2_654_435_761)) & mask)
        .collect()
}

fn roundtrip_all_rows(n_rows: u32, row_width: u32) {
    let pb = 8u32;
    let db = make_db(n_rows, row_width, pb);
    let (sp, _mat, hint) =
        FrodoPirBackend::server_setup(&FrodoConfig::default(), &db, n_rows, row_width, pb);
    let mut state = FrodoPirBackend::client_setup(&sp, &hint);
    for row in 0..n_rows {
        let q = FrodoPirBackend::client_query(&mut state, row);
        let r = FrodoPirBackend::server_answer(&sp, &db, n_rows, row_width, &q);
        let decoded = FrodoPirBackend::client_decode(&state, &r);
        let expected: Vec<u32> = db
            [row as usize * row_width as usize..(row as usize + 1) * row_width as usize]
            .to_vec();
        assert_eq!(decoded, expected, "row {row} mismatch");
    }
}

/// The optimized hint kernel is bit-identical to the reference.
/// Every shape exceeds `PAR_MIN_HINT_MACS` (asserted, so the test
/// cannot silently go vacuous if the threshold moves) and the
/// `lwe_dim` values are both multiples and non-multiples of any
/// plausible worker count, exercising the ragged last band.
#[test]
fn compute_hint_parallel_matches_reference() {
    for (n_rows, row_width, lwe_dim) in
        [(37u32, 257u32, 256u32), (32, 64, 1031), (24, 4096, 17)]
    {
        assert!(
            u64::from(n_rows) * u64::from(lwe_dim) * u64::from(row_width)
                >= PAR_MIN_HINT_MACS,
            "shape ({n_rows}, {row_width}, {lwe_dim}) must exceed the parallel threshold"
        );
        let db = make_db(n_rows, row_width, 8);
        let a = sample_a(&[0x9Eu8; 16], n_rows, lwe_dim);
        assert_eq!(
            compute_hint_parallel(&a, &db, n_rows, lwe_dim, row_width, 4),
            compute_hint(&a, &db, n_rows, lwe_dim, row_width),
            "mismatch at n_rows={n_rows} row_width={row_width} lwe_dim={lwe_dim}"
        );
    }
}

/// End-to-end equivalence contract of [`ParallelSetupBackend`]: a
/// server set up on the optimized path holds exactly the `(A, H)`
/// the reference path would have derived from the same seed.
#[test]
fn parallel_setup_matches_reference_for_its_own_seed() {
    let (n_rows, row_width, pb) = (64u32, 300u32, 8u32);
    let db = make_db(n_rows, row_width, pb);
    let cfg = FrodoConfig::with_lwe_dim(256);

    let (sp, mat, hint) =
        FrodoPirBackend::server_setup_parallel(&cfg, &db, n_rows, row_width, pb, 4);

    // Same `A` as the reference expansion of this segment's seed …
    let reference_mat = FrodoPirBackend::expand_hint_material(&sp);
    assert_eq!(mat.a, reference_mat.a);
    // … and the same hint the reference would have computed from it.
    assert_eq!(
        hint.data,
        compute_hint(&reference_mat.a, &db, n_rows, sp.params.lwe_dim, row_width)
    );
    // The client's optimized re-expansion agrees too.
    let state = FrodoPirBackend::client_setup_parallel(&sp, &hint, 4);
    assert_eq!(state.hint_material.a, reference_mat.a);
    assert_eq!(state.hint, hint);
}

#[test]
fn roundtrip_square_4x4() {
    roundtrip_all_rows(4, 4);
}

#[test]
fn roundtrip_wide_4x16() {
    roundtrip_all_rows(4, 16);
}

#[test]
fn roundtrip_tall_32x4() {
    roundtrip_all_rows(32, 4);
}

#[test]
fn roundtrip_segment_shape_64x16() {
    let pb = 8u32;
    let n_rows = 64u32;
    let row_width = 16u32;
    let db = make_db(n_rows, row_width, pb);
    let (sp, _mat, hint) =
        FrodoPirBackend::server_setup(&FrodoConfig::default(), &db, n_rows, row_width, pb);
    let mut state = FrodoPirBackend::client_setup(&sp, &hint);
    // Query 100 random rows (with wrapping) to stress the matvecs.
    for i in 0u32..100 {
        let row = (i.wrapping_mul(2_654_435_761)) % n_rows;
        let q = FrodoPirBackend::client_query(&mut state, row);
        let r = FrodoPirBackend::server_answer(&sp, &db, n_rows, row_width, &q);
        let decoded = FrodoPirBackend::client_decode(&state, &r);
        let expected: Vec<u32> = db
            [row as usize * row_width as usize..(row as usize + 1) * row_width as usize]
            .to_vec();
        assert_eq!(decoded, expected, "iteration {i}, row {row} mismatch");
    }
}

#[test]
fn decode_yields_high_bits_zero() {
    let pb = 8u32;
    let n_rows = 8u32;
    let row_width = 4u32;
    let db = make_db(n_rows, row_width, pb);
    let (sp, _mat, hint) =
        FrodoPirBackend::server_setup(&FrodoConfig::default(), &db, n_rows, row_width, pb);
    let mut state = FrodoPirBackend::client_setup(&sp, &hint);
    for row in 0..n_rows {
        let q = FrodoPirBackend::client_query(&mut state, row);
        let r = FrodoPirBackend::server_answer(&sp, &db, n_rows, row_width, &q);
        let decoded = FrodoPirBackend::client_decode(&state, &r);
        for &cell in &decoded {
            assert!(cell < (1 << pb), "cell {cell} exceeds p=2^{pb}");
        }
    }
}

#[test]
fn independent_queries_dont_interfere() {
    let pb = 8u32;
    let n_rows = 8u32;
    let row_width = 4u32;
    let db = make_db(n_rows, row_width, pb);
    let (sp, _mat, hint) =
        FrodoPirBackend::server_setup(&FrodoConfig::default(), &db, n_rows, row_width, pb);
    let mut state = FrodoPirBackend::client_setup(&sp, &hint);

    let q3 = FrodoPirBackend::client_query(&mut state, 3);
    let r3 = FrodoPirBackend::server_answer(&sp, &db, n_rows, row_width, &q3);
    let d3 = FrodoPirBackend::client_decode(&state, &r3);
    let expected3: Vec<u32> = db[3 * row_width as usize..4 * row_width as usize].to_vec();
    assert_eq!(d3, expected3, "first query row 3 mismatch");

    let q7 = FrodoPirBackend::client_query(&mut state, 7);
    let r7 = FrodoPirBackend::server_answer(&sp, &db, n_rows, row_width, &q7);
    let d7 = FrodoPirBackend::client_decode(&state, &r7);
    let expected7: Vec<u32> = db[7 * row_width as usize..8 * row_width as usize].to_vec();
    assert_eq!(d7, expected7, "second query row 7 mismatch");
}

#[test]
fn setup_is_random_per_call() {
    let pb = 8u32;
    let n_rows = 4u32;
    let row_width = 4u32;
    let db = make_db(n_rows, row_width, pb);
    let (sp1, _, _) =
        FrodoPirBackend::server_setup(&FrodoConfig::default(), &db, n_rows, row_width, pb);
    let (sp2, _, _) =
        FrodoPirBackend::server_setup(&FrodoConfig::default(), &db, n_rows, row_width, pb);
    assert_ne!(
        sp1.params.seed, sp2.params.seed,
        "seeds must differ across calls"
    );
}

#[test]
fn hint_matches_explicit_atd() {
    let pb = 8u32;
    let n_rows = 4u32;
    let row_width = 4u32;
    let db = make_db(n_rows, row_width, pb);
    let (sp, _mat, hint) =
        FrodoPirBackend::server_setup(&FrodoConfig::default(), &db, n_rows, row_width, pb);

    let lwe_dim = sp.params.lwe_dim;
    let a = sample_a(&sp.params.seed, n_rows, lwe_dim);
    let expected = compute_hint(&a, &db, n_rows, lwe_dim, row_width);

    assert_eq!(hint.data, expected, "hint != Aᵀ·D");
}

// Returns the actual signed change applied to the cell (may differ from `delta` when
// the cell value wraps mod 2^plaintext_bits).
fn apply_cell_delta(
    db: &mut [u32],
    row_idx: u32,
    cell_offset: u16,
    delta: i64,
    row_width: u32,
    plaintext_bits: u32,
) -> i64 {
    let idx = row_idx as usize * row_width as usize + cell_offset as usize;
    let mask = (1i64 << plaintext_bits) - 1;
    let old = db[idx] as i64;
    let new = (old + delta) & mask;
    db[idx] = new as u32;
    new - old
}

#[test]
fn patch_single_cell_matches_oracle() {
    let pb = 8u32;
    let n_rows = 4u32;
    let row_width = 4u32;
    let mut db = make_db(n_rows, row_width, pb);
    let (sp, _mat, mut hint) =
        FrodoPirBackend::server_setup(&FrodoConfig::default(), &db, n_rows, row_width, pb);

    let actual_dlt = apply_cell_delta(&mut db, 1, 2, 1, row_width, pb);
    let row_deltas = vec![(1u32, vec![(2u16, actual_dlt)])];
    FrodoPirBackend::server_patch_hint(
        &sp,
        &_mat,
        &mut hint,
        &row_deltas,
        HintPatchMode::EntryLevel,
    );

    let lwe_dim = sp.params.lwe_dim;
    let a = sample_a(&sp.params.seed, n_rows, lwe_dim);
    let expected = compute_hint(&a, &db, n_rows, lwe_dim, row_width);
    assert_eq!(hint.data, expected);
}

#[test]
fn patch_multi_cell_single_row_matches_oracle() {
    let pb = 8u32;
    let n_rows = 4u32;
    let row_width = 4u32;
    let mut db = make_db(n_rows, row_width, pb);
    let (sp, _mat, mut hint) =
        FrodoPirBackend::server_setup(&FrodoConfig::default(), &db, n_rows, row_width, pb);

    let raw_deltas: &[(u16, i64)] = &[(0, 3), (1, -1), (3, 2)];
    let cells: Vec<(u16, i64)> = raw_deltas
        .iter()
        .map(|&(off, dlt)| (off, apply_cell_delta(&mut db, 2, off, dlt, row_width, pb)))
        .collect();
    let row_deltas = vec![(2u32, cells)];
    FrodoPirBackend::server_patch_hint(
        &sp,
        &_mat,
        &mut hint,
        &row_deltas,
        HintPatchMode::EntryLevel,
    );

    let lwe_dim = sp.params.lwe_dim;
    let a = sample_a(&sp.params.seed, n_rows, lwe_dim);
    let expected = compute_hint(&a, &db, n_rows, lwe_dim, row_width);
    assert_eq!(hint.data, expected);
}

#[test]
fn patch_multi_row_matches_oracle() {
    let pb = 8u32;
    let n_rows = 8u32;
    let row_width = 4u32;
    let mut db = make_db(n_rows, row_width, pb);
    let (sp, _mat, mut hint) =
        FrodoPirBackend::server_setup(&FrodoConfig::default(), &db, n_rows, row_width, pb);

    let raw: &[(u32, &[(u16, i64)])] = &[
        (0, &[(0, 1)]),
        (3, &[(1, -2), (3, -4)]),
        (7, &[(0, 3), (2, -1), (3, 1)]),
    ];
    let row_deltas: Vec<(u32, Vec<(u16, i64)>)> = raw
        .iter()
        .map(|&(row, cells)| {
            let actual: Vec<(u16, i64)> = cells
                .iter()
                .map(|&(off, dlt)| {
                    (off, apply_cell_delta(&mut db, row, off, dlt, row_width, pb))
                })
                .collect();
            (row, actual)
        })
        .collect();
    FrodoPirBackend::server_patch_hint(
        &sp,
        &_mat,
        &mut hint,
        &row_deltas,
        HintPatchMode::EntryLevel,
    );

    let lwe_dim = sp.params.lwe_dim;
    let a = sample_a(&sp.params.seed, n_rows, lwe_dim);
    let expected = compute_hint(&a, &db, n_rows, lwe_dim, row_width);
    assert_eq!(hint.data, expected);
}

/// A large batch is patched identically under both realizations and matches a recomputed
/// hint.
#[test]
fn patch_batch_above_parallel_gate_matches_oracle() {
    let pb = 8u32;
    let (n_rows, row_width) = (128u32, 16u32);
    let cfg = FrodoConfig { lwe_dim: 512 };
    let mut db = make_db(n_rows, row_width, pb);
    let (sp, mat, hint0) = FrodoPirBackend::server_setup(&cfg, &db, n_rows, row_width, pb);

    // Every cell of every row: 2048 touched cells × 512 = 2²⁰ MACs.
    let row_deltas: Vec<(u32, Vec<(u16, i64)>)> = (0..n_rows)
        .map(|row| {
            let cells = (0..row_width as u16)
                .map(|off| {
                    let dlt = i64::from(off).wrapping_sub(7).wrapping_mul(3);
                    (off, apply_cell_delta(&mut db, row, off, dlt, row_width, pb))
                })
                .collect();
            (row, cells)
        })
        .collect();
    let touched: usize = row_deltas.iter().map(|(_, c)| c.len()).sum();
    assert!(touched * cfg.lwe_dim as usize >= 1 << 20);

    let mut hint_entry = hint0.clone();
    let mut hint_row = hint0;
    FrodoPirBackend::server_patch_hint(
        &sp,
        &mat,
        &mut hint_entry,
        &row_deltas,
        HintPatchMode::EntryLevel,
    );
    FrodoPirBackend::server_patch_hint(
        &sp,
        &mat,
        &mut hint_row,
        &row_deltas,
        HintPatchMode::RowLevel,
    );

    let expected = compute_hint(&mat.a, &db, n_rows, cfg.lwe_dim, row_width);
    assert_eq!(
        hint_entry.data, expected,
        "entry-level diverged from oracle"
    );
    assert_eq!(hint_row.data, expected, "row-level diverged from oracle");
}

/// The row-level pass fires one GEMM per chunk of touched rows, so a
/// batch spanning several chunks must reach the same hint as one
/// spanning one — in particular the chunk buffer has to be zeroed
/// between products. The shape is synthetic (a hint far wider than
/// any real segment) purely to make `row_level_batch_rows` small
/// enough that a cheap test crosses the boundary; the loop it
/// exercises depends on nothing else.
#[test]
fn row_level_patch_spans_several_chunks() {
    let (lwe_dim, row_width) = (4u32, 262_140u32);
    let cap = row_level_batch_rows(row_width as usize, lwe_dim as usize);
    let n_rows = (cap as u32) * 2 + 3;
    assert!(
        cap >= 2 && n_rows as usize > 2 * cap,
        "fixture must span 3 chunks"
    );

    let a: Vec<u32> = (0..n_rows * lwe_dim)
        .map(|i| i.wrapping_mul(2_654_435_761).wrapping_add(17))
        .collect();
    let hint0: Vec<u32> = (0..lwe_dim * row_width)
        .map(|i| i.wrapping_mul(40_503))
        .collect();
    let row_deltas: Vec<(u32, Vec<(u16, i64)>)> = (0..n_rows)
        .map(|row| {
            (
                row,
                vec![
                    (u16::try_from(row % 1000).unwrap(), i64::from(row) + 1),
                    (u16::try_from(row % 1000).unwrap() + 1, -3),
                ],
            )
        })
        .collect();

    // Oracle: the sparse formula, one touched cell at a time.
    let mut expected = hint0.clone();
    for (row, cells) in &row_deltas {
        for &(off, dlt) in cells {
            for k in 0..lwe_dim as usize {
                let idx = k * row_width as usize + off as usize;
                let aik = a[*row as usize * lwe_dim as usize + k];
                expected[idx] = expected[idx].wrapping_add(aik.wrapping_mul(dlt as u32));
            }
        }
    }

    let mut got = hint0;
    apply_patch_row_level(&a, lwe_dim, n_rows, row_width, &mut got, &row_deltas);
    assert_eq!(got, expected, "chunked row-level patch diverged");
}

#[test]
fn patch_zero_delta_is_noop() {
    let pb = 8u32;
    let n_rows = 4u32;
    let row_width = 4u32;
    let db = make_db(n_rows, row_width, pb);
    let (sp, _mat, mut hint) =
        FrodoPirBackend::server_setup(&FrodoConfig::default(), &db, n_rows, row_width, pb);
    let hint_before = hint.data.clone();

    let row_deltas = vec![(2u32, vec![(1u16, 0i64)])];
    FrodoPirBackend::server_patch_hint(
        &sp,
        &_mat,
        &mut hint,
        &row_deltas,
        HintPatchMode::EntryLevel,
    );

    assert_eq!(hint.data, hint_before);
}

#[test]
fn patch_negative_delta_correct() {
    let pb = 8u32;
    let n_rows = 4u32;
    let row_width = 4u32;
    let mut db = make_db(n_rows, row_width, pb);
    let (sp, _mat, mut hint) =
        FrodoPirBackend::server_setup(&FrodoConfig::default(), &db, n_rows, row_width, pb);

    // Row 2, off 0: make_db value is 72 (≥ 5), so delta = −5 gives actual change = −5.
    let actual_dlt = apply_cell_delta(&mut db, 2, 0, -5, row_width, pb);
    let row_deltas = vec![(2u32, vec![(0u16, actual_dlt)])];
    FrodoPirBackend::server_patch_hint(
        &sp,
        &_mat,
        &mut hint,
        &row_deltas,
        HintPatchMode::EntryLevel,
    );

    let lwe_dim = sp.params.lwe_dim;
    let a = sample_a(&sp.params.seed, n_rows, lwe_dim);
    let expected = compute_hint(&a, &db, n_rows, lwe_dim, row_width);
    assert_eq!(hint.data, expected);
}

#[test]
fn patch_random_burst_matches_oracle() {
    let pb = 8u32;
    let n_rows = 32u32;
    let row_width = 8u32;
    let mut db = make_db(n_rows, row_width, pb);
    let (sp, _mat, mut hint) =
        FrodoPirBackend::server_setup(&FrodoConfig::default(), &db, n_rows, row_width, pb);
    let mask = (1u32 << pb) - 1;

    let mut rng = ChaCha20Rng::seed_from_u64(0xCAFE_F00D);
    for _iter in 0..50 {
        let n_rows_in_batch = rng.random_range(1..=4u32);
        let mut row_deltas: Vec<(u32, Vec<(u16, i64)>)> = Vec::new();
        for _ in 0..n_rows_in_batch {
            let row = rng.random_range(0..n_rows);
            let n_cells = rng.random_range(1..=row_width);
            let mut cells: Vec<(u16, i64)> = Vec::new();
            for _ in 0..n_cells {
                let off = rng.random_range(0..row_width) as u16;
                let new_val: u32 = rng.random_range(0..=mask);
                let idx = row as usize * row_width as usize + off as usize;
                let actual_dlt = new_val as i64 - db[idx] as i64;
                db[idx] = new_val;
                cells.push((off, actual_dlt));
            }
            row_deltas.push((row, cells));
        }
        FrodoPirBackend::server_patch_hint(
            &sp,
            &_mat,
            &mut hint,
            &row_deltas,
            HintPatchMode::EntryLevel,
        );

        let lwe_dim = sp.params.lwe_dim;
        let a = sample_a(&sp.params.seed, n_rows, lwe_dim);
        let expected = compute_hint(&a, &db, n_rows, lwe_dim, row_width);
        assert_eq!(hint.data, expected, "patched hint diverged at iter {_iter}");
    }
}

#[test]
fn decode_after_patch_returns_patched_value() {
    let pb = 8u32;
    let n_rows = 8u32;
    let row_width = 4u32;
    let mut db = make_db(n_rows, row_width, pb);
    let (sp, _mat, hint) =
        FrodoPirBackend::server_setup(&FrodoConfig::default(), &db, n_rows, row_width, pb);
    let mut state = FrodoPirBackend::client_setup(&sp, &hint);

    let target_row = 3u32;
    let dlt1 = apply_cell_delta(&mut db, target_row, 1, 7, row_width, pb);
    let dlt2 = apply_cell_delta(&mut db, target_row, 2, -3, row_width, pb);
    let row_deltas = vec![(target_row, vec![(1u16, dlt1), (2u16, dlt2)])];

    let mut server_hint = hint;
    FrodoPirBackend::server_patch_hint(
        &sp,
        &_mat,
        &mut server_hint,
        &row_deltas,
        HintPatchMode::EntryLevel,
    );
    FrodoPirBackend::client_patch_state(&mut state, &row_deltas, HintPatchMode::EntryLevel);

    assert_eq!(
        state.hint.data, server_hint.data,
        "server and client patched hints must be identical"
    );

    let q = FrodoPirBackend::client_query(&mut state, target_row);
    let r = FrodoPirBackend::server_answer(&sp, &db, n_rows, row_width, &q);
    let decoded = FrodoPirBackend::client_decode(&state, &r);
    let expected = db[target_row as usize * row_width as usize
        ..(target_row as usize + 1) * row_width as usize]
        .to_vec();
    assert_eq!(
        decoded, expected,
        "decode after patch did not recover patched row"
    );
}

#[test]
fn decode_after_multi_row_patch_returns_patched_value() {
    let pb = 8u32;
    let n_rows = 16u32;
    let row_width = 8u32;
    let mut db = make_db(n_rows, row_width, pb);
    let (sp, _mat, hint) =
        FrodoPirBackend::server_setup(&FrodoConfig::default(), &db, n_rows, row_width, pb);
    let mut state = FrodoPirBackend::client_setup(&sp, &hint);

    let raw: &[(u32, &[(u16, i64)])] = &[
        (2, &[(0, 5), (3, -2)]),
        (7, &[(1, 3)]),
        (11, &[(2, -4), (6, 1)]),
    ];
    let row_deltas: Vec<(u32, Vec<(u16, i64)>)> = raw
        .iter()
        .map(|&(row, cells)| {
            let actual: Vec<(u16, i64)> = cells
                .iter()
                .map(|&(off, dlt)| {
                    (off, apply_cell_delta(&mut db, row, off, dlt, row_width, pb))
                })
                .collect();
            (row, actual)
        })
        .collect();

    let mut server_hint = hint;
    FrodoPirBackend::server_patch_hint(
        &sp,
        &_mat,
        &mut server_hint,
        &row_deltas,
        HintPatchMode::EntryLevel,
    );
    FrodoPirBackend::client_patch_state(&mut state, &row_deltas, HintPatchMode::EntryLevel);

    assert_eq!(
        state.hint.data, server_hint.data,
        "server and client patched hints must be identical"
    );

    for &(target_row, _) in raw {
        let q = FrodoPirBackend::client_query(&mut state, target_row);
        let r = FrodoPirBackend::server_answer(&sp, &db, n_rows, row_width, &q);
        let decoded = FrodoPirBackend::client_decode(&state, &r);
        let expected = db[target_row as usize * row_width as usize
            ..(target_row as usize + 1) * row_width as usize]
            .to_vec();
        assert_eq!(decoded, expected, "decode failed for row {target_row}");
    }
}

// -------- preprocessing (Phase B + Phase C) --------

/// Sanity: with both phases warm, every query/decode round-trip still
/// returns the right plaintext for every row.
#[test]
fn precomputed_roundtrip_all_rows() {
    let pb = 8u32;
    let n_rows = 16u32;
    let row_width = 8u32;
    let db = make_db(n_rows, row_width, pb);
    let (sp, _mat, hint) =
        FrodoPirBackend::server_setup(&FrodoConfig::default(), &db, n_rows, row_width, pb);
    let mut state = FrodoPirBackend::client_setup(&sp, &hint);

    FrodoPirBackend::client_precompute_queries(&mut state, n_rows);
    FrodoPirBackend::client_precompute_decodes(&mut state);
    assert_eq!(state.prepared_len(), n_rows as usize);
    assert_eq!(state.in_flight_len(), 0);

    for row in 0..n_rows {
        let q = FrodoPirBackend::client_query(&mut state, row);
        assert_eq!(state.in_flight_len(), 1);
        let r = FrodoPirBackend::server_answer(&sp, &db, n_rows, row_width, &q);
        let decoded = FrodoPirBackend::client_decode(&state, &r);
        let expected = db
            [row as usize * row_width as usize..(row as usize + 1) * row_width as usize]
            .to_vec();
        assert_eq!(decoded, expected, "row {row} mismatch");
    }
    // All prepared slots consumed.
    assert_eq!(state.prepared_len(), 0);
}

/// `client_precompute_decodes` is idempotent: a second call leaves the
/// queue contents unchanged.
#[test]
fn precompute_decodes_idempotent() {
    let pb = 8u32;
    let n_rows = 4u32;
    let row_width = 4u32;
    let db = make_db(n_rows, row_width, pb);
    let (sp, _mat, hint) =
        FrodoPirBackend::server_setup(&FrodoConfig::default(), &db, n_rows, row_width, pb);
    let mut state = FrodoPirBackend::client_setup(&sp, &hint);

    FrodoPirBackend::client_precompute_queries(&mut state, 4);
    FrodoPirBackend::client_precompute_decodes(&mut state);
    let snapshot: Vec<Option<Vec<u32>>> = masks(&state);
    FrodoPirBackend::client_precompute_decodes(&mut state);
    let after: Vec<Option<Vec<u32>>> = masks(&state);
    assert_eq!(snapshot, after, "second precompute_decodes must be a no-op");
}

/// Cheap path (precomputed) and on-the-fly path produce the same
/// decoded plaintext when fed the same `(secret, b)`.
#[test]
fn precomputed_decode_matches_on_the_fly() {
    let pb = 8u32;
    let n_rows = 8u32;
    let row_width = 4u32;
    let db = make_db(n_rows, row_width, pb);
    let (sp, _mat, hint) =
        FrodoPirBackend::server_setup(&FrodoConfig::default(), &db, n_rows, row_width, pb);

    // Warm path: precompute queries + decodes.
    let mut warm = FrodoPirBackend::client_setup(&sp, &hint);
    FrodoPirBackend::client_precompute_queries(&mut warm, 4);
    FrodoPirBackend::client_precompute_decodes(&mut warm);

    // Cold path: clone the prepared slots over to a sibling state with
    // c stripped. Both states then issue queries against the same rows.
    let mut cold = FrodoPirBackend::client_setup(&sp, &hint);
    for i in 0..warm.prepared_len() {
        let secret = warm.prepared_secret(i).to_vec();
        let mut product = vec![0u32; n_rows as usize];
        matvec_rows_accumulate(&mut product, &warm.hint_material.a, &secret);
        let error: Vec<u32> = warm
            .prepared_query(i)
            .iter()
            .zip(&product)
            .map(|(b, x)| b.wrapping_sub(*x))
            .collect();
        queue_slot(&mut cold, secret, error);
    }

    for row in 0..4u32 {
        let q_warm = FrodoPirBackend::client_query(&mut warm, row);
        let q_cold = FrodoPirBackend::client_query(&mut cold, row);
        assert_eq!(q_warm.b, q_cold.b, "queries diverged at row {row}");

        let r = FrodoPirBackend::server_answer(&sp, &db, n_rows, row_width, &q_warm);
        let dec_warm = FrodoPirBackend::client_decode(&warm, &r);
        let dec_cold = FrodoPirBackend::client_decode(&cold, &r);
        assert_eq!(dec_warm, dec_cold, "decodes diverged at row {row}");
    }
}

/// After patching the hint, the precomputed `c` of every queued slot
/// matches what `client_setup` on the post-patch hint would compute.
#[test]
fn patched_c_matches_recomputed_c() {
    let pb = 8u32;
    let n_rows = 8u32;
    let row_width = 4u32;
    let mut db = make_db(n_rows, row_width, pb);
    let (sp, _mat, hint) =
        FrodoPirBackend::server_setup(&FrodoConfig::default(), &db, n_rows, row_width, pb);
    let mut state = FrodoPirBackend::client_setup(&sp, &hint);

    FrodoPirBackend::client_precompute_queries(&mut state, 5);
    FrodoPirBackend::client_precompute_decodes(&mut state);

    // Apply some sparse patches.
    let raw: &[(u32, &[(u16, i64)])] = &[
        (1, &[(0, 3), (2, -1)]),
        (5, &[(1, 7)]),
        (7, &[(0, -2), (3, 4)]),
    ];
    let row_deltas: Vec<(u32, Vec<(u16, i64)>)> = raw
        .iter()
        .map(|&(row, cells)| {
            let actual: Vec<(u16, i64)> = cells
                .iter()
                .map(|&(off, dlt)| {
                    (off, apply_cell_delta(&mut db, row, off, dlt, row_width, pb))
                })
                .collect();
            (row, actual)
        })
        .collect();

    // Snapshot the secrets so we can recompute c against the patched hint.
    let secrets: Vec<Vec<u32>> = (0..state.prepared_len())
        .map(|i| state.prepared_secret(i).to_vec())
        .collect();
    FrodoPirBackend::client_patch_state(&mut state, &row_deltas, HintPatchMode::EntryLevel);

    // Oracle: compute c = sᵀ · patched_hint directly from H.
    let lwe_dim = sp.params.lwe_dim;
    let a = sample_a(&sp.params.seed, n_rows, lwe_dim);
    let h_patched = compute_hint(&a, &db, n_rows, lwe_dim, row_width);

    for (i, secret) in secrets.iter().enumerate() {
        let oracle = compute_c(secret, &h_patched, row_width as usize);
        assert_eq!(state.prepared_mask(i).unwrap(), &oracle, "patched c diverged");
    }
}

/// Full round-trip: precompute, patch, then decode — the patched-c path
/// recovers the patched plaintext exactly.
#[test]
fn decode_after_patch_with_precomputed_c_returns_patched_value() {
    let pb = 8u32;
    let n_rows = 16u32;
    let row_width = 8u32;
    let mut db = make_db(n_rows, row_width, pb);
    let (sp, _mat, hint) =
        FrodoPirBackend::server_setup(&FrodoConfig::default(), &db, n_rows, row_width, pb);
    let mut state = FrodoPirBackend::client_setup(&sp, &hint);
    let mut server_hint = hint;

    FrodoPirBackend::client_precompute_queries(&mut state, 4);
    FrodoPirBackend::client_precompute_decodes(&mut state);

    let raw: &[(u32, &[(u16, i64)])] = &[(2, &[(0, 5), (3, -2)]), (11, &[(2, -4), (6, 1)])];
    let row_deltas: Vec<(u32, Vec<(u16, i64)>)> = raw
        .iter()
        .map(|&(row, cells)| {
            let actual: Vec<(u16, i64)> = cells
                .iter()
                .map(|&(off, dlt)| {
                    (off, apply_cell_delta(&mut db, row, off, dlt, row_width, pb))
                })
                .collect();
            (row, actual)
        })
        .collect();

    FrodoPirBackend::server_patch_hint(
        &sp,
        &_mat,
        &mut server_hint,
        &row_deltas,
        HintPatchMode::EntryLevel,
    );
    FrodoPirBackend::client_patch_state(&mut state, &row_deltas, HintPatchMode::EntryLevel);

    for &(target_row, _) in raw {
        let q = FrodoPirBackend::client_query(&mut state, target_row);
        let r = FrodoPirBackend::server_answer(&sp, &db, n_rows, row_width, &q);
        let decoded = FrodoPirBackend::client_decode(&state, &r);
        let expected = db[target_row as usize * row_width as usize
            ..(target_row as usize + 1) * row_width as usize]
            .to_vec();
        assert_eq!(decoded, expected, "decode failed for row {target_row}");
    }
}

/// `client_query` falls back to inline sampling when the prepared queue
/// is empty (preserves pre-precomputation behaviour).
#[test]
fn client_query_falls_back_when_queue_empty() {
    let pb = 8u32;
    let n_rows = 8u32;
    let row_width = 4u32;
    let db = make_db(n_rows, row_width, pb);
    let (sp, _mat, hint) =
        FrodoPirBackend::server_setup(&FrodoConfig::default(), &db, n_rows, row_width, pb);
    let mut state = FrodoPirBackend::client_setup(&sp, &hint);
    assert_eq!(state.prepared_len(), 0);

    let q = FrodoPirBackend::client_query(&mut state, 3);
    assert_eq!(state.in_flight_len(), 1);
    let r = FrodoPirBackend::server_answer(&sp, &db, n_rows, row_width, &q);
    let decoded = FrodoPirBackend::client_decode(&state, &r);
    let expected = db[3 * row_width as usize..4 * row_width as usize].to_vec();
    assert_eq!(decoded, expected);
}

/// `client_precompute_decodes` also fills `c` for an already-in-flight
/// slot whose `c` was None — that slot's decode then takes the cheap path.
#[test]
fn precompute_decodes_fills_in_flight_slot() {
    let pb = 8u32;
    let n_rows = 4u32;
    let row_width = 4u32;
    let db = make_db(n_rows, row_width, pb);
    let (sp, _mat, hint) =
        FrodoPirBackend::server_setup(&FrodoConfig::default(), &db, n_rows, row_width, pb);
    let mut state = FrodoPirBackend::client_setup(&sp, &hint);

    let q = FrodoPirBackend::client_query(&mut state, 1);
    assert!(
        state.in_flight_len() == 1 && state.in_flight_mask().is_none(),
        "fresh inline-sampled slot starts with no c"
    );

    FrodoPirBackend::client_precompute_decodes(&mut state);
    assert!(
        state.in_flight_mask().is_some(),
        "precompute_decodes must fill in-flight slot too"
    );

    let r = FrodoPirBackend::server_answer(&sp, &db, n_rows, row_width, &q);
    let decoded = FrodoPirBackend::client_decode(&state, &r);
    let expected = db[row_width as usize..2 * row_width as usize].to_vec();
    assert_eq!(decoded, expected);
}

// -------- row-level vs entry-level patch realizations --------

/// The two [`HintPatchMode`] realizations must produce bit-identical
/// hints across random multi-row bursts, and both must match the
/// recomputed `Aᵀ·D` oracle at the end of the run.
#[test]
fn row_level_patch_matches_entry_level_and_oracle() {
    let pb = 8u32;
    let n_rows = 32u32;
    let row_width = 8u32;
    let mut db = make_db(n_rows, row_width, pb);
    let (sp, mat, hint0) =
        FrodoPirBackend::server_setup(&FrodoConfig::default(), &db, n_rows, row_width, pb);
    let mut hint_entry = hint0.clone();
    let mut hint_row = hint0;
    let mask = (1u32 << pb) - 1;

    let mut rng = ChaCha20Rng::seed_from_u64(0xB0B5_CAFE);
    for _iter in 0..50 {
        let n_rows_in_batch = rng.random_range(1..=4u32);
        let mut row_deltas: Vec<(u32, Vec<(u16, i64)>)> = Vec::new();
        for _ in 0..n_rows_in_batch {
            let row = rng.random_range(0..n_rows);
            let n_cells = rng.random_range(1..=row_width);
            let mut cells: Vec<(u16, i64)> = Vec::new();
            for _ in 0..n_cells {
                let off = rng.random_range(0..row_width) as u16;
                let new_val: u32 = rng.random_range(0..=mask);
                let idx = row as usize * row_width as usize + off as usize;
                let actual_dlt = new_val as i64 - db[idx] as i64;
                db[idx] = new_val;
                cells.push((off, actual_dlt));
            }
            row_deltas.push((row, cells));
        }
        FrodoPirBackend::server_patch_hint(
            &sp,
            &mat,
            &mut hint_entry,
            &row_deltas,
            HintPatchMode::EntryLevel,
        );
        FrodoPirBackend::server_patch_hint(
            &sp,
            &mat,
            &mut hint_row,
            &row_deltas,
            HintPatchMode::RowLevel,
        );
        assert_eq!(
            hint_entry.data, hint_row.data,
            "realizations diverged at iter {_iter}"
        );
    }

    let lwe_dim = sp.params.lwe_dim;
    let a = sample_a(&sp.params.seed, n_rows, lwe_dim);
    let expected = compute_hint(&a, &db, n_rows, lwe_dim, row_width);
    assert_eq!(hint_row.data, expected, "row-level diverged from oracle");
}

/// A zero delta is a no-op under the row-level realization too (the
/// dense pass multiplies a zero delta vector into the hint).
#[test]
fn row_level_patch_zero_delta_is_noop() {
    let pb = 8u32;
    let n_rows = 4u32;
    let row_width = 4u32;
    let db = make_db(n_rows, row_width, pb);
    let (sp, mat, mut hint) =
        FrodoPirBackend::server_setup(&FrodoConfig::default(), &db, n_rows, row_width, pb);
    let hint_before = hint.data.clone();

    let row_deltas = vec![(2u32, vec![(1u16, 0i64)])];
    FrodoPirBackend::server_patch_hint(
        &sp,
        &mat,
        &mut hint,
        &row_deltas,
        HintPatchMode::RowLevel,
    );

    assert_eq!(hint.data, hint_before);
}

/// Duplicate edits to the same `(row, cell)` within one call must
/// accumulate identically under both realizations: entry-level applies
/// them one by one, row-level sums them while densifying.
#[test]
fn duplicate_cell_edits_accumulate_identically() {
    let pb = 8u32;
    let n_rows = 4u32;
    let row_width = 4u32;
    let mut db = make_db(n_rows, row_width, pb);
    let (sp, mat, hint0) =
        FrodoPirBackend::server_setup(&FrodoConfig::default(), &db, n_rows, row_width, pb);

    let d1 = apply_cell_delta(&mut db, 1, 2, 3, row_width, pb);
    let d2 = apply_cell_delta(&mut db, 1, 2, 2, row_width, pb);
    let row_deltas = vec![(1u32, vec![(2u16, d1), (2u16, d2)])];

    let mut hint_entry = hint0.clone();
    let mut hint_row = hint0;
    FrodoPirBackend::server_patch_hint(
        &sp,
        &mat,
        &mut hint_entry,
        &row_deltas,
        HintPatchMode::EntryLevel,
    );
    FrodoPirBackend::server_patch_hint(
        &sp,
        &mat,
        &mut hint_row,
        &row_deltas,
        HintPatchMode::RowLevel,
    );
    assert_eq!(hint_entry.data, hint_row.data);

    let lwe_dim = sp.params.lwe_dim;
    let a = sample_a(&sp.params.seed, n_rows, lwe_dim);
    let expected = compute_hint(&a, &db, n_rows, lwe_dim, row_width);
    assert_eq!(hint_row.data, expected);
}

/// Full round-trip under `RowLevel`: precompute Phase B + C, patch via
/// `client_patch_state(.., RowLevel)`, then decode — exercises the
/// mode-independent `patch_slot_c` interplay and recovers the patched
/// plaintext exactly.
#[test]
fn decode_after_row_level_patch_with_precomputed_c() {
    let pb = 8u32;
    let n_rows = 16u32;
    let row_width = 8u32;
    let mut db = make_db(n_rows, row_width, pb);
    let (sp, mat, hint) =
        FrodoPirBackend::server_setup(&FrodoConfig::default(), &db, n_rows, row_width, pb);
    let mut state = FrodoPirBackend::client_setup(&sp, &hint);
    let mut server_hint = hint;

    FrodoPirBackend::client_precompute_queries(&mut state, 4);
    FrodoPirBackend::client_precompute_decodes(&mut state);

    let raw: &[(u32, &[(u16, i64)])] = &[(2, &[(0, 5), (3, -2)]), (11, &[(2, -4), (6, 1)])];
    let row_deltas: Vec<(u32, Vec<(u16, i64)>)> = raw
        .iter()
        .map(|&(row, cells)| {
            let actual: Vec<(u16, i64)> = cells
                .iter()
                .map(|&(off, dlt)| {
                    (off, apply_cell_delta(&mut db, row, off, dlt, row_width, pb))
                })
                .collect();
            (row, actual)
        })
        .collect();

    FrodoPirBackend::server_patch_hint(
        &sp,
        &mat,
        &mut server_hint,
        &row_deltas,
        HintPatchMode::RowLevel,
    );
    FrodoPirBackend::client_patch_state(&mut state, &row_deltas, HintPatchMode::RowLevel);
    assert_eq!(
        state.hint.data, server_hint.data,
        "server and client row-level patched hints must be identical"
    );

    for &(target_row, _) in raw {
        let q = FrodoPirBackend::client_query(&mut state, target_row);
        let r = FrodoPirBackend::server_answer(&sp, &db, n_rows, row_width, &q);
        let decoded = FrodoPirBackend::client_decode(&state, &r);
        let expected = db[target_row as usize * row_width as usize
            ..(target_row as usize + 1) * row_width as usize]
            .to_vec();
        assert_eq!(decoded, expected, "decode failed for row {target_row}");
    }
}

/// A response from after an update, rewound by the update's deltas, decodes to the row as it
/// was before.
#[test]
fn rewound_response_decodes_the_row_before_the_update() {
    let (n_rows, row_width, pb) = (8u32, 4u32, 8u32);
    let mut db = make_db(n_rows, row_width, pb);
    let before = db.clone();
    let (sp, mat, hint) =
        FrodoPirBackend::server_setup(&FrodoConfig::with_lwe_dim(64), &db, n_rows, row_width, pb);
    let mut state = FrodoPirBackend::client_setup(&sp, &hint);
    let q = FrodoPirBackend::client_query(&mut state, 5);

    let d = apply_cell_delta(&mut db, 5, 1, 9, row_width, pb);
    let e = apply_cell_delta(&mut db, 2, 3, -4, row_width, pb);
    let row_deltas = vec![(5u32, vec![(1u16, d)]), (2u32, vec![(3u16, e)])];
    let mut server_hint = hint;
    FrodoPirBackend::server_patch_hint(
        &sp,
        &mat,
        &mut server_hint,
        &row_deltas,
        HintPatchMode::default(),
    );

    let mut r = FrodoPirBackend::server_answer(&sp, &db, n_rows, row_width, &q);
    FrodoPirBackend::rewind_response(&state, &q, &mut r, &row_deltas);
    assert_eq!(
        FrodoPirBackend::client_decode(&state, &r),
        before[20..24].to_vec()
    );
    assert_eq!(ClientUpdateMode::default(), ClientUpdateMode::Rewind);
}

#[test]
fn setup_from_a_seed_is_reproducible() {
    let (n_rows, row_width, pb) = (8u32, 4u32, 8u32);
    let db = make_db(n_rows, row_width, pb);
    let cfg = FrodoConfig::with_lwe_dim(32);
    let seed = [5u8; 16];
    let (sp, mat, hint) = setup_with_seed(&cfg, &db, n_rows, row_width, pb, seed);
    let (sp2, mat2, hint2) = setup_with_seed_parallel(&cfg, &db, n_rows, row_width, pb, seed, 3);
    assert_eq!(sp.params.seed, seed);
    assert_eq!(sp2.params.seed, seed);
    assert_eq!(mat.a, mat2.a);
    assert_eq!(mat.a, sample_a(&seed, n_rows, 32));
    assert_eq!(hint, hint2);
    assert_eq!(FrodoPirBackend::db_matrix_shape(&sp), (n_rows, row_width));
}

#[test]
fn rounding_is_exact() {
    assert_eq!(scale(8), 1 << 24);
    assert_eq!(round_p_to_q(3, 8), 3 << 24);
    assert_eq!(round_q_to_p(3 << 24, 8), 3);
    assert_eq!(round_q_to_p((3 << 24) + (1 << 23) - 1, 8), 3);
    assert_eq!(round_q_to_p((3 << 24) + (1 << 23), 8), 4);
    assert_eq!(round_q_to_p((3 << 24) - (1 << 23), 8), 3);
    assert_eq!(round_q_to_p(u32::MAX, 8), 0);
}

#[test]
fn sizes_on_the_wire_are_four_bytes_per_residue() {
    let (n_rows, row_width, pb) = (8u32, 5u32, 8u32);
    let db = make_db(n_rows, row_width, pb);
    let (sp, _mat, hint) =
        FrodoPirBackend::server_setup(&FrodoConfig::with_lwe_dim(16), &db, n_rows, row_width, pb);
    let mut state = FrodoPirBackend::client_setup(&sp, &hint);
    let q = FrodoPirBackend::client_query(&mut state, 0);
    let r = FrodoPirBackend::server_answer(&sp, &db, n_rows, row_width, &q);
    assert_eq!(FrodoPirBackend::query_byte_size(&q), 32);
    assert_eq!(FrodoPirBackend::response_byte_size(&r), 20);
    assert_eq!(FrodoPirBackend::hint_byte_size(&hint), 4 * 16 * 5);
}
