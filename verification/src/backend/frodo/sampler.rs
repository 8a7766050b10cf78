//! Expansion of the public matrix, and ternary secrets and errors.
use vstd::prelude::*;

use crate::backend::parallel;
use crate::backend::prg;
use crate::backend::prg::WordSource;

verus! {

// ---------------------------------------------------------------- public matrix
/// A 16-byte seed, filled up with zeros to the length of a ChaCha20 seed.
pub open spec fn padded_seed(seed: Seq<u8>) -> Seq<u8> {
    seed + Seq::new(16, |i: int| 0u8)
}

/// The public matrix of a seed: the first `n_rows * lwe_dim` words of its key stream.
pub open spec fn matrix_a(seed: Seq<u8>, n_rows: nat, lwe_dim: nat) -> Seq<u32> {
    prg::keystream(padded_seed(seed), 0, n_rows * lwe_dim)
}

fn pad_seed(seed: &[u8; 16]) -> (padded: [u8; prg::SEED_LEN])
    ensures
        padded@ == padded_seed(seed@),
{
    let mut padded: [u8; prg::SEED_LEN] = [0;prg::SEED_LEN];
    let mut i: usize = 0;
    while i < 16
        invariant
            i <= 16,
            forall|k: int| 0 <= k < i ==> padded@[k] == seed@[k],
            forall|k: int| i <= k < 32 ==> padded@[k] == 0,
        decreases 16 - i,
    {
        padded[i] = seed[i];
        i = i + 1;
    }
    proof {
        assert(padded@ =~= padded_seed(seed@));
    }
    padded
}

/// Expands the public matrix, row-major, `n_rows` by `lwe_dim`.
pub fn sample_a(seed: &[u8; 16], n_rows: u32, lwe_dim: u32) -> (a: Vec<u32>)
    requires
        n_rows * lwe_dim <= usize::MAX,
    ensures
        a@ == matrix_a(seed@, n_rows as nat, lwe_dim as nat),
{
    let len: usize = (n_rows as usize) * (lwe_dim as usize);
    let mut out: Vec<u32> = vec![0; len];
    prg::fill_words_seq(&pad_seed(seed), out.as_mut_slice(), 0);
    out
}

/// Expands the same public matrix in up to `threads` pieces, each of which starts from its
/// own place in the key stream.
pub fn sample_a_parallel(seed: &[u8; 16], n_rows: u32, lwe_dim: u32, threads: usize) -> (a: Vec<
    u32,
>)
    requires
        n_rows * lwe_dim <= usize::MAX,
    ensures
        a@ == matrix_a(seed@, n_rows as nat, lwe_dim as nat),
{
    let len: usize = (n_rows as usize) * (lwe_dim as usize);
    if threads <= 1 || len < parallel::PAR_MIN_WORDS {
        return sample_a(seed, n_rows, lwe_dim);
    }
    let mut out: Vec<u32> = vec![0; len];
    prg::chacha20_fill_words(&pad_seed(seed), out.as_mut_slice(), threads);
    out
}

// ---------------------------------------------------------------- ternary samples
/// The residue of a ternary number that the two bits `d` stand for; `3` stands for none.
pub open spec fn digit(d: u32) -> Option<u32> {
    if d == 0 {
        Some(0)
    } else if d == 1 {
        Some(1)
    } else if d == 2 {
        Some(u32::MAX)
    } else {
        None
    }
}

/// The samples that the lowest `k` pairs of bits of `word` give, lowest pair first.
pub open spec fn word_samples(word: u32, k: nat) -> Seq<u32>
    decreases k,
{
    if k == 0 {
        Seq::empty()
    } else {
        let rest = word_samples(word / 4, (k - 1) as nat);
        match digit(word % 4) {
            Some(x) => seq![x] + rest,
            None => rest,
        }
    }
}

/// The samples that a sequence of words gives.
pub open spec fn samples(words: Seq<u32>) -> Seq<u32>
    decreases words.len(),
{
    if words.len() == 0 {
        Seq::empty()
    } else {
        samples(words.drop_last()) + word_samples(words.last(), 16)
    }
}

/// The residue of -1, 0 or 1.
pub open spec fn is_ternary(x: u32) -> bool {
    x == 0 || x == 1 || x == u32::MAX
}

/// `after` is `before` with its first places overwritten by as many of `xs` as fit.
pub open spec fn overwritten(before: Seq<u32>, xs: Seq<u32>, after: Seq<u32>) -> bool {
    let n = parallel::min(before.len() as int, xs.len() as int);
    after == xs.take(n) + before.skip(n)
}

pub proof fn lemma_word_samples_ternary(word: u32, k: nat)
    ensures
        forall|i: int|
            0 <= i < word_samples(word, k).len() ==> is_ternary(#[trigger] word_samples(word, k)[i]),
    decreases k,
{
    if k > 0 {
        let rest = word_samples(word / 4, (k - 1) as nat);
        lemma_word_samples_ternary(word / 4, (k - 1) as nat);
        let all = word_samples(word, k);
        let n = all.len() - rest.len();
        assert forall|i: int| 0 <= i < all.len() implies is_ternary(#[trigger] all[i]) by {
            if i >= n {
                assert(all[i] == rest[i - n]);
            }
        }
    }
}

/// Every sample is the residue of -1, 0 or 1.
pub proof fn law_samples_ternary(words: Seq<u32>)
    ensures
        forall|i: int| 0 <= i < samples(words).len() ==> is_ternary(#[trigger] samples(words)[i]),
    decreases words.len(),
{
    if words.len() > 0 {
        let init = samples(words.drop_last());
        let tail = word_samples(words.last(), 16);
        law_samples_ternary(words.drop_last());
        lemma_word_samples_ternary(words.last(), 16);
        assert forall|i: int| 0 <= i < samples(words).len() implies is_ternary(
            #[trigger] samples(words)[i],
        ) by {
            if i < init.len() {
                assert(samples(words)[i] == init[i]);
            } else {
                assert(samples(words)[i] == tail[i - init.len()]);
            }
        }
    }
}

/// Writes the samples of one word to the places from `idx` on, as far as they fit.
fn put_word_samples(word: u32, dst: &mut [u32], idx: usize) -> (n: usize)
    requires
        idx <= old(dst)@.len(),
    ensures
        n == parallel::min(old(dst)@.len() as int, idx + word_samples(word, 16).len()),
        final(dst)@ == old(dst)@.take(idx as int) + word_samples(word, 16).take(n - idx) + old(
            dst,
        )@.skip(n as int),
{
    let ghost d0 = dst@;
    let ghost all = word_samples(word, 16);
    let ghost mut k: nat = 16;
    let mut w: u32 = word;
    let mut at: usize = idx;
    let mut i: u32 = 0;
    proof {
        assert(all.take(0) + word_samples(w, 16) =~= all);
        assert(dst@ =~= d0.take(idx as int) + all.take(0) + d0.skip(idx as int));
    }
    while i < 16 && at < dst.len()
        invariant
            i <= 16,
            k == 16 - i,
            idx <= at <= dst@.len() == d0.len(),
            at - idx <= all.len(),
            all == all.take(at - idx) + word_samples(w, k),
            dst@ == d0.take(idx as int) + all.take(at - idx) + d0.skip(at as int),
        decreases 16 - i,
    {
        let d: u32 = w & 3;
        assert(d == w % 4) by (bit_vector)
            requires
                d == w & 3,
        ;
        let next: u32 = w >> 2;
        assert(next == w / 4) by (bit_vector)
            requires
                next == w >> 2,
        ;
        let ghost rest = word_samples(next, (k - 1) as nat);
        let ghost done = all.take(at - idx);
        if d == 0 {
            dst[at] = 0;
            at = at + 1;
        } else if d == 1 {
            dst[at] = 1;
            at = at + 1;
        } else if d == 2 {
            dst[at] = u32::MAX;
            at = at + 1;
        }
        proof {
            k = (k - 1) as nat;
            match digit(d) {
                Some(x) => {
                    assert(all =~= done.push(x) + rest);
                    assert(all.take(at - idx) =~= done.push(x));
                },
                None => {
                    assert(all == done + rest);
                },
            }
            assert(dst@ =~= d0.take(idx as int) + all.take(at - idx) + d0.skip(at as int));
        }
        w = next;
        i = i + 1;
    }
    proof {
        if i == 16 {
            assert(word_samples(w, 0).len() == 0);
            assert(all.len() == at - idx);
        }
    }
    at
}

/// Draws after which sampling gives up.
pub const MAX_DRAWS: u64 = u64::MAX;

/// Fills `dst` with uniform residues of -1, 0 and 1: pairs of bits, lowest pair of a word
/// first, of which `0`, `1` and `2` stand for 0, 1 and -1 and `3` is rejected.
///
/// Words are drawn until `dst` is full. A source that never gives anything but rejected
/// pairs is given up after [`MAX_DRAWS`] words; what was not reached keeps its value.
pub fn sample_ternary_into<R: WordSource>(rng: &mut R, dst: &mut [u32])
    requires
        old(rng).ready(),
    ensures
        final(rng).ready(),
        exists|words: Seq<u32>|
            {
                &&& #[trigger] prg::draws(*old(rng), words, *final(rng))
                &&& overwritten(old(dst)@, samples(words), final(dst)@)
                &&& samples(words).len() >= old(dst)@.len() || words.len() == MAX_DRAWS
                &&& words.len() > 0 ==> samples(words.drop_last()).len() < old(dst)@.len()
            },
{
    let ghost d0 = dst@;
    let ghost mut words: Seq<u32> = Seq::empty();
    let mut idx: usize = 0;
    let mut drawn: u64 = 0;
    proof {
        assert(dst@ =~= samples(words).take(0) + d0.skip(0));
    }
    while idx < dst.len() && drawn < MAX_DRAWS
        invariant
            old(rng).ready(),
            rng.ready(),
            d0 == old(dst)@,
            dst@.len() == d0.len(),
            drawn == words.len() <= MAX_DRAWS,
            prg::draws(*old(rng), words, *rng),
            idx == parallel::min(d0.len() as int, samples(words).len() as int),
            dst@ == samples(words).take(idx as int) + d0.skip(idx as int),
            words.len() > 0 ==> samples(words.drop_last()).len() < d0.len(),
        decreases MAX_DRAWS - drawn,
    {
        let ghost before = *rng;
        let word: u32 = rng.next_u32();
        let ghost d1 = dst@;
        let n: usize = put_word_samples(word, dst, idx);
        proof {
            prg::lemma_draws_push(*old(rng), words, before, word, *rng);
            let next = words.push(word);
            assert(next.drop_last() =~= words);
            assert(samples(next) == samples(words) + word_samples(word, 16));
            assert(samples(words).len() == idx);
            assert(samples(next).take(n as int) =~= samples(words) + word_samples(word, 16).take(
                n - idx,
            ));
            assert(dst@ =~= samples(next).take(n as int) + d0.skip(n as int));
            words = next;
        }
        idx = n;
        drawn = drawn + 1;
    }
    proof {
        assert(prg::draws(*old(rng), words, *rng) && overwritten(d0, samples(words), dst@));
    }
}

} // verus!
