//! Coalesced hint patches.
use ikpir::backend::patch::TouchedRuns;

/// Reference: the formula executed literally, one column at a time.
fn oracle(
    cells: &[(u16, i64)],
    a_row: &[u32],
    hint: &mut [u32],
    hint_row_width: usize,
    column_of: impl Fn(u16) -> usize,
) {
    for &(off, delta) in cells {
        if delta == 0 {
            continue;
        }
        let col = column_of(off);
        for (k, &aik) in a_row.iter().enumerate() {
            let idx = k * hint_row_width + col;
            hint[idx] = hint[idx].wrapping_add(aik.wrapping_mul(delta as u32));
        }
    }
}

fn fixture(hint_row_width: usize, lwe_dim: usize) -> (Vec<u32>, Vec<u32>) {
    let a_row: Vec<u32> = (0..lwe_dim)
        .map(|k| (k as u32).wrapping_mul(2_654_435_761).wrapping_add(7))
        .collect();
    let hint: Vec<u32> = (0..lwe_dim * hint_row_width)
        .map(|i| (i as u32).wrapping_mul(40_503))
        .collect();
    (a_row, hint)
}

/// Coalescing must not change the arithmetic: contiguous runs, gaps,
/// duplicates, zero deltas, negative deltas and unsorted input all
/// reproduce the literal per-column formula bit for bit.
#[test]
fn matches_literal_formula() {
    let (w, n) = (32usize, 8usize);
    let cases: &[&[(u16, i64)]] = &[
        &[(3, 5)],
        &[(3, 5), (4, -9), (5, 1)],            // one run
        &[(0, 3), (1, 4), (17, -2), (18, 8)],  // two runs
        &[(9, 7), (9, -2), (9, 4)],            // duplicates on one column
        &[(6, 0), (7, 3), (8, 0)],             // zero deltas dropped
        &[(20, -1), (2, 6), (21, 3), (3, -4)], // unsorted, two runs
        &[(31, i64::from(i32::MIN))],          // wide negative delta
        &[(5, 0)],                             // everything cancels
    ];
    for cells in cases {
        let (a_row, hint0) = fixture(w, n);
        let mut got = hint0.clone();
        let mut want = hint0;

        let mut runs = TouchedRuns::new();
        runs.rebuild(cells, |off| off as usize);
        if !runs.is_empty() {
            runs.apply(&a_row, &mut got, w);
        }
        oracle(cells, &a_row, &mut want, w, |off| off as usize);

        assert_eq!(got, want, "diverged on {cells:?}");
    }
}

/// A buffer reused across rows must not leak the previous row's runs.
#[test]
fn rebuild_clears_previous_row() {
    let (w, n) = (16usize, 4usize);
    let (a_row, hint0) = fixture(w, n);
    let mut runs = TouchedRuns::new();

    runs.rebuild(&[(0, 5), (1, 6), (2, 7)], |off| off as usize);
    let mut scratch = hint0.clone();
    runs.apply(&a_row, &mut scratch, w);

    let second: &[(u16, i64)] = &[(9, -3)];
    runs.rebuild(second, |off| off as usize);
    let mut got = hint0.clone();
    runs.apply(&a_row, &mut got, w);

    let mut want = hint0;
    oracle(second, &a_row, &mut want, w, |off| off as usize);
    assert_eq!(got, want);
}

/// An all-zero row reports empty, so the caller can skip it.
#[test]
fn all_zero_row_is_empty() {
    let mut runs = TouchedRuns::new();
    runs.rebuild(&[(1, 0), (2, 0)], |off| off as usize);
    assert!(runs.is_empty());
}

/// `column_of` is honoured — SimplePIR patches translated columns,
/// and adjacency is decided *after* translation.
#[test]
fn honours_column_translation() {
    let (w, n) = (24usize, 4usize);
    let (a_row, hint0) = fixture(w, n);
    let cells: &[(u16, i64)] = &[(0, 3), (1, -5)];
    let shift = |off: u16| off as usize + 8;

    let mut got = hint0.clone();
    let mut runs = TouchedRuns::new();
    runs.rebuild(cells, shift);
    runs.apply(&a_row, &mut got, w);

    let mut want = hint0;
    oracle(cells, &a_row, &mut want, w, shift);
    assert_eq!(got, want);
}
