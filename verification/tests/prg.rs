//! The key stream.
use ikpir::backend::parallel::PAR_MIN_WORDS;
use ikpir::backend::prg::{
    chacha20_fill_words, fill_words_chunked, fill_words_seq, Keystream, ThreadWords, WordSource,
};
use rand_chacha::rand_core::{RngCore, SeedableRng};
use rand_chacha::ChaCha20Rng;

fn sequential(seed: [u8; 32], len: usize) -> Vec<u32> {
    let mut out = vec![0u32; len];
    fill_words_seq(&seed, &mut out, 0);
    out
}

/// Forced chunk sizes — buffer-aligned, unaligned, larger than the
/// buffer — all reproduce the sequential stream exactly. This is the
/// primitive both fan-outs rest on, so it is pinned independently of
/// whichever one the current feature set compiles.
#[test]
fn chunked_matches_sequential() {
    let seed = [0x5Au8; 32];
    for len in [1usize, 15, 16, 17, 1000, 4096, 100_003] {
        let expected = sequential(seed, len);
        for chunk in [16usize, 48, 64, 1024, 1 << 20] {
            let mut got = vec![0u32; len];
            for (ci, part) in got.chunks_mut(chunk).enumerate() {
                fill_words_seq(&seed, part, (ci * chunk) as u64);
            }
            assert_eq!(got, expected, "len={len} chunk={chunk}");
        }
    }
}

/// The public entry (whatever path it picks) reproduces the
/// sequential stream on both sides of the parallel gate.
#[test]
fn entry_matches_sequential_across_gate() {
    let seed = [0xC3u8; 32];
    for len in [1000usize, PAR_MIN_WORDS + 37] {
        let expected = sequential(seed, len);
        let mut got = vec![0u32; len];
        chacha20_fill_words(&seed, &mut got, 4);
        assert_eq!(got, expected, "len={len}");
    }
}

/// Seeking to a mid-stream word position matches skipping there by
/// consuming words (the primitive the chunked fill relies on).
#[test]
fn seek_matches_skip() {
    let seed = [0x11u8; 32];
    let full = sequential(seed, 200);
    for start in [1usize, 16, 33, 100] {
        let mut got = vec![0u32; 200 - start];
        fill_words_seq(&seed, &mut got, start as u64);
        assert_eq!(got, full[start..], "start={start}");
    }
}

/// The stream is that of the generator it is named after.
#[test]
fn words_are_those_of_the_generator() {
    let seed = [0x77u8; 32];
    let mut rng = ChaCha20Rng::from_seed(seed);
    let want: Vec<u32> = (0..300).map(|_| rng.next_u32()).collect();
    assert_eq!(sequential(seed, 300), want);
    let mut source = Keystream::from_seed(seed);
    let drawn: Vec<u32> = (0..300).map(|_| source.next_u32()).collect();
    assert_eq!(drawn, want);
}

#[test]
fn forced_chunks_match_sequential() {
    let seed = [0x2Bu8; 32];
    for len in [1usize, 63, 64, 65, 1000] {
        let expected = sequential(seed, len);
        for chunk in [1usize, 16, 64, 100] {
            let mut got = vec![0u32; len];
            fill_words_chunked(&seed, &mut got, chunk);
            assert_eq!(got, expected, "len={len} chunk={chunk}");
        }
    }
}

#[test]
fn a_cloned_source_goes_on_alike() {
    let mut a = Keystream::from_seed([3u8; 32]);
    for _ in 0..7 {
        a.next_u32();
    }
    let mut b = a.clone();
    for _ in 0..40 {
        assert_eq!(a.next_u32(), b.next_u32());
    }
}

/// Eight words that are all equal have a chance of one in `2^224`.
#[test]
fn thread_words_vary() {
    let mut source = ThreadWords;
    let words: Vec<u32> = (0..8).map(|_| source.next_u32()).collect();
    assert!(words.iter().any(|&w| w != words[0]));
}
