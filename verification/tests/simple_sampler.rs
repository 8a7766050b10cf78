//! Public matrices and uniform samples.
use ikpir::backend::parallel::PAR_MIN_WORDS;
use ikpir::backend::prg::{fill_words_seq, Keystream, WordSource};
use ikpir::backend::simple::sampler::{sample_a, sample_a_parallel, sample_uniform_zq_into};

const LWE_DIM: u32 = 1275;

fn padded(seed: &[u8; 16]) -> [u8; 32] {
    let mut out = [0u8; 32];
    out[..16].copy_from_slice(seed);
    out
}

fn keystream(seed: &[u8; 16]) -> Keystream {
    Keystream::from_seed(padded(seed))
}

#[test]
fn sampler_sample_a_determinism() {
    let seed = [0x42u8; 16];
    let a1 = sample_a(&seed, 4, LWE_DIM);
    let a2 = sample_a(&seed, 4, LWE_DIM);
    assert_eq!(a1, a2);
}

/// The optimized path is byte-identical to the reference. Shaped
/// above `PAR_MIN_WORDS` so the fan-out actually runs.
#[test]
fn sampler_sample_a_parallel_matches_sequential() {
    let seed = [0x5Au8; 16];
    let n_rows = 256u32;
    assert!(
        (n_rows as usize) * (LWE_DIM as usize) >= PAR_MIN_WORDS,
        "test shape must exceed the parallel threshold"
    );
    assert_eq!(
        sample_a_parallel(&seed, n_rows, LWE_DIM, 4),
        sample_a(&seed, n_rows, LWE_DIM)
    );
}

/// Pins the primitive `sample_a_parallel` rests on: a fresh RNG
/// seeked to word `o` emits exactly the words the sequential stream
/// has at `o` — for chunk lengths on and off the 64-word buffer
/// edge, and for a chunk longer than the whole output.
#[test]
fn sampler_chacha_seek_reproduces_stream_at_every_chunking() {
    let seed = [0xC3u8; 16];
    let expected = sample_a(&seed, 8, 512);
    for chunk in [1usize, 15, 16, 63, 64, 100, 4096, 9000] {
        let mut got = vec![0u32; expected.len()];
        for (i, part) in got.chunks_mut(chunk).enumerate() {
            fill_words_seq(&padded(&seed), part, (i * chunk) as u64);
        }
        assert_eq!(got, expected, "chunk={chunk}");
    }
}

#[test]
fn sampler_sample_a_distinctness() {
    let seed1 = [0x11u8; 16];
    let seed2 = [0x22u8; 16];
    let a1 = sample_a(&seed1, 4, LWE_DIM);
    let a2 = sample_a(&seed2, 4, LWE_DIM);
    let differ = a1.iter().zip(a2.iter()).filter(|(x, y)| x != y).count();
    assert!(
        differ * 100 >= a1.len() * 99,
        "fewer than 99% cells differ: {differ}/{}",
        a1.len()
    );
}

#[test]
fn sampler_sample_a_shape() {
    let seed = [0u8; 16];
    let n_rows = 4u32;
    let a = sample_a(&seed, n_rows, LWE_DIM);
    assert_eq!(a.len(), (n_rows * LWE_DIM) as usize);
}

#[test]
fn uniform_zq_determinism() {
    let mut rng1 = keystream(&[0x77u8; 16]);
    let mut rng2 = keystream(&[0x77u8; 16]);
    let mut dst1 = vec![0u32; LWE_DIM as usize];
    let mut dst2 = vec![0u32; LWE_DIM as usize];
    sample_uniform_zq_into(&mut rng1, &mut dst1);
    sample_uniform_zq_into(&mut rng2, &mut dst2);
    assert_eq!(dst1, dst2);
}

/// Mean of `n` uniform `u32` samples (interpreted as `f64`) should
/// be approximately `2³¹`, within several standard deviations.
#[test]
fn uniform_zq_mean() {
    let n = 50_000usize;
    let mut rng = keystream(&[0xABu8; 16]);
    let mut dst = vec![0u32; n];
    sample_uniform_zq_into(&mut rng, &mut dst);
    let mean: f64 = dst.iter().map(|&x| x as f64).sum::<f64>() / n as f64;
    let expected = (1u64 << 31) as f64; // ≈ 2³¹
                                        // σ of uniform on [0, 2³²) is 2³²/√12 ≈ 1.24·10⁹, so σ_mean ≈ that/√n ≈ 5.5·10⁶.
                                        // Allow a generous 5σ window.
    let sigma_mean = (1u64 << 32) as f64 / 12.0_f64.sqrt() / (n as f64).sqrt();
    assert!(
        (mean - expected).abs() < 5.0 * sigma_mean,
        "uniform Z_q mean = {mean}, expected ≈ {expected} (±{:.0})",
        5.0 * sigma_mean
    );
}

#[test]
fn uniform_samples_are_the_words() {
    let mut words = keystream(&[0x20u8; 16]);
    let want: Vec<u32> = (0..50).map(|_| words.next_u32()).collect();
    let mut got = vec![0u32; 50];
    sample_uniform_zq_into(&mut keystream(&[0x20u8; 16]), &mut got);
    assert_eq!(got, want);
}
