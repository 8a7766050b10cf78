//! Splitting work.
use ikpir::backend::parallel::{balanced_chunk_len, resolve_setup_threads, MAX_SETUP_THREADS};

#[test]
fn balanced_chunk_len_respects_unit_and_parts() {
    // 1000 elements, rows of 7, 4 workers -> 250 -> rounded up to 252 (36 * 7).
    assert_eq!(balanced_chunk_len(1000, 7, 4), 252);
    assert_eq!(1000usize.div_ceil(252), 4);
    // Never below one unit, even with more workers than units.
    assert_eq!(balanced_chunk_len(10, 7, 64), 7);
    // Degenerate inputs are clamped, not panics.
    assert_eq!(balanced_chunk_len(10, 0, 0), 10);
    assert_eq!(balanced_chunk_len(0, 4, 8), 0);
}

#[test]
fn setup_threads_is_at_least_one() {
    assert_eq!(resolve_setup_threads(None, None), 1);
    assert_eq!(resolve_setup_threads(Some(3), Some(8)), 3);
    assert_eq!(resolve_setup_threads(Some(0), Some(8)), 8);
    assert_eq!(resolve_setup_threads(Some(1_000_000), None), MAX_SETUP_THREADS);
}
