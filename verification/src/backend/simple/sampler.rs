//! Public matrices and uniform secrets.
use vstd::prelude::*;

use crate::backend::frodo::sampler;
use crate::backend::prg;
use crate::backend::prg::WordSource;

verus! {

/// Expands the public matrix of `n_rows` rows and `lwe_dim` columns from its seed.
pub fn sample_a(seed: &[u8; 16], n_rows: u32, lwe_dim: u32) -> (a: Vec<u32>)
    requires
        n_rows * lwe_dim <= usize::MAX,
    ensures
        a@ == sampler::matrix_a(seed@, n_rows as nat, lwe_dim as nat),
{
    sampler::sample_a(seed, n_rows, lwe_dim)
}

/// Expands the same public matrix in up to `threads` pieces, each of which starts from its
/// own place in the key stream.
pub fn sample_a_parallel(seed: &[u8; 16], n_rows: u32, lwe_dim: u32, threads: usize) -> (a: Vec<
    u32,
>)
    requires
        n_rows * lwe_dim <= usize::MAX,
    ensures
        a@ == sampler::matrix_a(seed@, n_rows as nat, lwe_dim as nat),
{
    sampler::sample_a_parallel(seed, n_rows, lwe_dim, threads)
}

/// Fills `dst` with residues: one drawn word per place, in order.
pub fn sample_uniform_zq_into<R: WordSource>(rng: &mut R, dst: &mut [u32])
    requires
        old(rng).ready(),
    ensures
        final(rng).ready(),
        final(dst)@.len() == old(dst)@.len(),
        prg::draws(*old(rng), final(dst)@, *final(rng)),
{
    let n: usize = dst.len();
    let mut i: usize = 0;
    proof {
        assert(dst@.take(0) =~= Seq::empty());
    }
    while i < n
        invariant
            i <= n == dst@.len() == old(dst)@.len(),
            rng.ready(),
            prg::draws(*old(rng), dst@.take(i as int), *rng),
        decreases n - i,
    {
        let ghost drawn = dst@.take(i as int);
        let ghost before = *rng;
        let word: u32 = rng.next_u32();
        dst[i] = word;
        proof {
            prg::lemma_draws_push(*old(rng), drawn, before, word, *rng);
            assert(dst@.take(i + 1) =~= drawn.push(word));
        }
        i = i + 1;
    }
    proof {
        assert(dst@.take(n as int) =~= dst@);
    }
}

} // verus!
