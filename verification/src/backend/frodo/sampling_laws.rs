//! Which samples words give, and how work is cut up.
use vstd::arithmetic::div_mod::*;
use vstd::arithmetic::power2::*;
use vstd::prelude::*;

use crate::backend::frodo::sampler;
use crate::backend::parallel;
use crate::backend::patch;
use crate::backend::prg;
use crate::geometry;

verus! {

// ---------------------------------------------------------------- samples
/// The lowest `k` pairs of bits of a word, as numbers below four, lowest pair first.
pub open spec fn pairs(word: u32, k: nat) -> Seq<u32> {
    Seq::new(k, |i: int| ((word as int / pow2((2 * i) as nat) as int) % 4) as u32)
}

/// What a pair of bits stands for: 0, 1 or -1.
pub open spec fn sample_of(pair: u32) -> u32 {
    if pair == 0 {
        0
    } else if pair == 1 {
        1
    } else {
        0xffff_ffff
    }
}

proof fn lemma_pairs_step(word: u32, k: nat)
    requires
        k > 0,
    ensures
        pairs(word, k) == seq![word % 4] + pairs(word / 4, (k - 1) as nat),
{
    lemma2_to64();
    let all = pairs(word, k);
    let rest = pairs(word / 4, (k - 1) as nat);
    assert(word as int / 1 == word as int);
    assert forall|i: int| 1 <= i < k implies all[i] == rest[i - 1] by {
        let e = (2 * (i - 1)) as nat;
        lemma_pow2_adds(2, e);
        lemma_pow2_pos(e);
        lemma_div_denominator(word as int, 4, pow2(e) as int);
        assert(pow2((2 * i) as nat) == 4 * pow2(e));
    }
    assert(all =~= seq![word % 4] + rest);
}

proof fn lemma_word_samples(word: u32, k: nat)
    ensures
        sampler::word_samples(word, k) == pairs(word, k).filter(|p: u32| p != 3).map_values(
            |p: u32| sample_of(p),
        ),
    decreases k,
{
    let keep = |p: u32| p != 3;
    let value = |p: u32| sample_of(p);
    reveal(Seq::filter);
    if k == 0 {
        assert(pairs(word, k).filter(keep) =~= Seq::empty());
        assert(sampler::word_samples(word, k) =~= pairs(word, k).filter(keep).map_values(value));
    } else {
        let rest = pairs(word / 4, (k - 1) as nat);
        let head = seq![word % 4];
        lemma_word_samples(word / 4, (k - 1) as nat);
        lemma_pairs_step(word, k);
        Seq::filter_distributes_over_add(head, rest, keep);
        assert(head.drop_last() =~= Seq::empty());
        assert(head.drop_last().filter(keep) =~= Seq::empty());
        assert(head.last() == word % 4);
        if word % 4 != 3 {
            assert(head.filter(keep) =~= head);
        } else {
            assert(head.filter(keep) =~= Seq::empty());
        }
        assert(sampler::word_samples(word, k) =~= (head.filter(keep) + rest.filter(
            keep,
        )).map_values(value));
    }
}

/// A word gives one sample for each of its sixteen pairs of bits but those that are three, in
/// order: 0 for zero, 1 for one and -1 for two.
pub proof fn law_samples_of_word(word: u32)
    ensures
        sampler::samples(seq![word]) == pairs(word, 16).filter(|p: u32| p != 3).map_values(
            |p: u32| sample_of(p),
        ),
{
    lemma_word_samples(word, 16);
    assert(seq![word].drop_last() =~= Seq::empty());
    assert(sampler::samples(Seq::empty()) =~= Seq::empty());
    assert(sampler::samples(seq![word]) =~= sampler::word_samples(word, 16));
}

/// Words give their samples one after another.
pub proof fn law_samples_in_order(a: Seq<u32>, b: Seq<u32>)
    ensures
        sampler::samples(a + b) == sampler::samples(a) + sampler::samples(b),
    decreases b.len(),
{
    if b.len() == 0 {
        assert(a + b =~= a);
        assert(sampler::samples(a + b) =~= sampler::samples(a) + sampler::samples(b));
    } else {
        law_samples_in_order(a, b.drop_last());
        assert((a + b).drop_last() =~= a + b.drop_last());
        assert(sampler::samples(a + b) =~= sampler::samples(a) + sampler::samples(b));
    }
}

/// Where there are enough samples, every place gets its own; and only where a source gave
/// nothing but rejected pairs `2^64 - 1` times is sampling given up.
pub proof fn law_samples_fill(before: Seq<u32>, xs: Seq<u32>, after: Seq<u32>)
    requires
        sampler::overwritten(before, xs, after),
    ensures
        after.len() == before.len(),
        forall|i: int| 0 <= i < before.len() && i < xs.len() ==> #[trigger] after[i] == xs[i],
        forall|i: int| xs.len() <= i < before.len() ==> #[trigger] after[i] == before[i],
        sampler::MAX_DRAWS == 0xffff_ffff_ffff_ffff,
{
}

/// The public matrix is the key stream of the seed, which is filled up with sixteen zeros, from
/// its first word on.
pub proof fn law_matrix_is_stream(seed: Seq<u8>, n_rows: nat, lwe_dim: nat, i: int, k: int)
    requires
        seed.len() == 16,
        0 <= i < n_rows,
        0 <= k < lwe_dim,
    ensures
        sampler::matrix_a(seed, n_rows, lwe_dim).len() == n_rows * lwe_dim,
        sampler::matrix_a(seed, n_rows, lwe_dim)[i * lwe_dim + k] == prg::keystream_word(
            sampler::padded_seed(seed),
            (i * lwe_dim + k) as nat,
        ),
        sampler::padded_seed(seed).len() == 32,
        sampler::padded_seed(seed).take(16) == seed,
        forall|x: int| 16 <= x < 32 ==> #[trigger] sampler::padded_seed(seed)[x] == 0,
{
    crate::arith::lemma_cell(i, k, n_rows as int, lwe_dim as int);
    assert(sampler::padded_seed(seed).take(16) =~= seed);
}

// ---------------------------------------------------------------- chunks
/// A chunk is the least multiple of the unit of which `parts` cover the whole.
pub proof fn law_chunk_is_least(total: int, unit: int, parts: int, n: int)
    requires
        0 <= total,
        0 < unit,
        0 < parts,
        n % unit == 0,
        n * parts >= total,
    ensures
        parallel::chunk_len(total, unit, parts) % unit == 0,
        parallel::chunk_len(total, unit, parts) * parts >= total,
        parallel::chunk_len(total, unit, parts) <= n,
{
    let per = geometry::ceil_div(total, parts);
    let units = geometry::ceil_div(per, unit);
    geometry::lemma_ceil_div(total, parts);
    geometry::lemma_ceil_div(per, unit);
    lemma_mod_multiples_basic(units, unit);
    assert(units * unit * parts >= total) by (nonlinear_arith)
        requires
            units * unit >= per,
            per * parts >= total,
            parts >= 1,
    ;
    assert(n > per - 1) by (nonlinear_arith)
        requires
            n * parts >= total,
            (per - 1) * parts < total,
            parts > 0,
    ;
    let m = n / unit;
    lemma_fundamental_div_mod(n, unit);
    assert(m > units - 1) by (nonlinear_arith)
        requires
            unit * m >= per,
            (units - 1) * unit < per,
            unit > 0,
    ;
    assert(units * unit <= n) by (nonlinear_arith)
        requires
            m >= units,
            n == unit * m,
            unit > 0,
    ;
}

/// A batch of a row-level patch has as many rows as leave the batch at most 1048576 cells, and
/// at least one.
pub proof fn law_batch_is_greatest(row_width: int, lwe_dim: int, n: int)
    requires
        0 <= row_width,
        0 <= lwe_dim,
        0 < row_width + lwe_dim,
        n > 1,
    ensures
        1 <= patch::batch_rows(row_width, lwe_dim),
        n <= patch::batch_rows(row_width, lwe_dim) <==> n * (row_width + lwe_dim)
            <= 1_048_576,
{
    let per = row_width + lwe_dim;
    let cells = 1_048_576int;
    let m = cells / per;
    lemma_fundamental_div_mod(cells, per);
    lemma_mod_bound(cells, per);
    lemma_div_pos_is_pos(cells, per);
    if n <= m {
        assert(n * per <= cells) by (nonlinear_arith)
            requires
                n <= m,
                per * m <= cells,
                per > 0,
        ;
    } else {
        assert(n * per > cells) by (nonlinear_arith)
            requires
                n >= m + 1,
                cells < per * m + per,
                per > 0,
        ;
    }
}

/// As many workers are used as are asked for, up to 1024.
pub proof fn law_worker_limit(asked: int)
    ensures
        parallel::min(parallel::MAX_SETUP_THREADS as int, asked) == if asked <= 1024 {
            asked
        } else {
            1024
        },
{
}

} // verus!
