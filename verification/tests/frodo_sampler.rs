//! Public matrices and ternary samples.
use ikpir::backend::frodo::params::DEFAULT_LWE_DIM;
use ikpir::backend::frodo::sampler::{sample_a, sample_a_parallel, sample_ternary_into};
use ikpir::backend::parallel::PAR_MIN_WORDS;
use ikpir::backend::prg::{fill_words_seq, Keystream, WordSource};

const LWE_DIM: u32 = DEFAULT_LWE_DIM;

fn padded(seed: &[u8; 16]) -> [u8; 32] {
    let mut out = [0u8; 32];
    out[..16].copy_from_slice(seed);
    out
}

fn keystream(seed: &[u8; 16]) -> Keystream {
    Keystream::from_seed(padded(seed))
}

#[test]
fn sample_a_determinism() {
    let seed = [0x42u8; 16];
    let a1 = sample_a(&seed, 4, LWE_DIM);
    let a2 = sample_a(&seed, 4, LWE_DIM);
    assert_eq!(a1, a2);
}

#[test]
fn sample_a_distinctness() {
    let seed1 = [0x11u8; 16];
    let seed2 = [0x22u8; 16];
    let a1 = sample_a(&seed1, 4, LWE_DIM);
    let a2 = sample_a(&seed2, 4, LWE_DIM);
    let differ = a1.iter().zip(a2.iter()).filter(|(x, y)| x != y).count();
    assert!(
        differ * 100 >= a1.len() * 99,
        "fewer than 99% cells differ: {differ}/{}",
        a1.len()
    );
}

#[test]
fn sample_a_shape() {
    let seed = [0u8; 16];
    let n_rows = 4u32;
    let a = sample_a(&seed, n_rows, LWE_DIM);
    assert_eq!(a.len(), (n_rows * LWE_DIM) as usize);
}

/// The optimized path is byte-identical to the reference. Shaped
/// above `PAR_MIN_WORDS` so the fan-out actually runs.
#[test]
fn sample_a_parallel_matches_sequential() {
    let seed = [0x5Au8; 16];
    let n_rows = 256u32;
    assert!(
        (n_rows as usize) * (LWE_DIM as usize) >= PAR_MIN_WORDS,
        "test shape must exceed the parallel threshold"
    );
    assert_eq!(
        sample_a_parallel(&seed, n_rows, LWE_DIM, 4),
        sample_a(&seed, n_rows, LWE_DIM)
    );
}

/// Pins the primitive `sample_a_parallel` rests on: a fresh RNG
/// seeked to word `o` emits exactly the words the sequential stream
/// has at `o` — for chunk lengths on and off the 64-word buffer
/// edge, and for a chunk longer than the whole output.
#[test]
fn chacha_seek_reproduces_stream_at_every_chunking() {
    let seed = [0xC3u8; 16];
    let expected = sample_a(&seed, 8, 512);
    for chunk in [1usize, 15, 16, 63, 64, 100, 4096, 9000] {
        let mut got = vec![0u32; expected.len()];
        for (i, part) in got.chunks_mut(chunk).enumerate() {
            fill_words_seq(&padded(&seed), part, (i * chunk) as u64);
        }
        assert_eq!(got, expected, "chunk={chunk}");
    }
}

#[test]
fn ternary_distribution() {
    let n: usize = 100_000;
    let mut rng = keystream(&[0xABu8; 16]);
    let mut dst = vec![0u32; n];
    sample_ternary_into(&mut rng, &mut dst);

    let count_zero = dst.iter().filter(|&&x| x == 0).count();
    let count_one = dst.iter().filter(|&&x| x == 1).count();
    let count_neg = dst.iter().filter(|&&x| x == u32::MAX).count();

    // σ = sqrt(2N/9) for each bucket under uniform multinomial
    let sigma = ((2.0 * n as f64) / 9.0).sqrt();
    let lo = 5.0f64.mul_add(-sigma, n as f64 / 3.0) as usize;
    let hi = 5.0f64.mul_add(sigma, n as f64 / 3.0) as usize;

    assert!(
        (lo..=hi).contains(&count_zero),
        "zero count {count_zero} out of [{lo}, {hi}]"
    );
    assert!(
        (lo..=hi).contains(&count_one),
        "one count {count_one} out of [{lo}, {hi}]"
    );
    assert!(
        (lo..=hi).contains(&count_neg),
        "neg count {count_neg} out of [{lo}, {hi}]"
    );
}

#[test]
fn ternary_determinism() {
    let mut rng1 = keystream(&[0x77u8; 16]);
    let mut rng2 = keystream(&[0x77u8; 16]);
    let mut dst1 = vec![0u32; LWE_DIM as usize];
    let mut dst2 = vec![0u32; LWE_DIM as usize];
    sample_ternary_into(&mut rng1, &mut dst1);
    sample_ternary_into(&mut rng2, &mut dst2);
    assert_eq!(dst1, dst2);
}

#[test]
fn ternary_support() {
    let mut rng = keystream(&[0x55u8; 16]);
    let mut dst = vec![0u32; LWE_DIM as usize];
    sample_ternary_into(&mut rng, &mut dst);
    for &v in &dst {
        assert!(
            v == 0 || v == 1 || v == u32::MAX,
            "unexpected ternary value: {v}"
        );
    }
}

/// Sixteen pairs of bits per word, lowest first: 0, 1 and 2 stand for 0, 1 and -1, and 3 is
/// passed over.
#[test]
fn ternary_samples_are_the_pairs_of_the_words() {
    let mut words = keystream(&[0x19u8; 16]);
    let mut want = Vec::new();
    while want.len() < 100 {
        let word = words.next_u32();
        for k in 0..16 {
            match (word >> (2 * k)) & 3 {
                0 => want.push(0),
                1 => want.push(1),
                2 => want.push(u32::MAX),
                _ => {}
            }
        }
    }
    let mut got = vec![7u32; 100];
    sample_ternary_into(&mut keystream(&[0x19u8; 16]), &mut got);
    assert_eq!(got, want[..100]);
}
