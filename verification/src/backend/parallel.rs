//! Worker counts and chunk lengths for work that is split into disjoint pieces.
use vstd::prelude::*;

use crate::geometry;

verus! {

/// Upper bound on the number of setup workers.
pub const MAX_SETUP_THREADS: usize = 1024;

/// Multiply-adds from which the hint is computed in bands.
pub const PAR_MIN_HINT_MACS: u64 = 1_048_576;

/// Key-stream words from which an expansion is computed in chunks.
pub const PAR_MIN_WORDS: usize = 262_144;

/// Words that the ChaCha20 generator buffers at a time.
pub const CHACHA_BUFFER_WORDS: usize = 64;

/// The smaller of two numbers.
pub open spec fn min(a: int, b: int) -> int {
    if a <= b {
        a
    } else {
        b
    }
}

/// The number of setup workers: the requested number where there is one and it is not
/// zero, else the machine's own, and in either case at most [`MAX_SETUP_THREADS`].
///
/// `available` is what the machine reports; a machine that reports nothing counts as one.
pub fn resolve_setup_threads(requested: Option<usize>, available: Option<usize>) -> (n: usize)
    ensures
        n == min(
            MAX_SETUP_THREADS as int,
            if requested is Some && requested->0 >= 1 {
                requested->0 as int
            } else if available is Some {
                available->0 as int
            } else {
                1
            },
        ),
{
    let n: usize = match requested {
        Some(r) if r >= 1 => r,
        _ => match available {
            Some(a) => a,
            None => 1,
        },
    };
    if n <= MAX_SETUP_THREADS {
        n
    } else {
        MAX_SETUP_THREADS
    }
}

/// `total / parts`, rounded up, and then rounded up to a multiple of `unit`; a zero `unit`
/// or `parts` counts as one.
pub open spec fn chunk_len(total: int, unit: int, parts: int) -> int {
    let u = if unit == 0 {
        1
    } else {
        unit
    };
    let p = if parts == 0 {
        1
    } else {
        parts
    };
    geometry::ceil_div(geometry::ceil_div(total, p), u) * u
}

/// A chunk is at most one unit longer than what is to be split.
pub proof fn lemma_chunk_len_bound(total: int, unit: int, parts: int)
    requires
        0 <= total,
        0 < unit,
        0 < parts,
    ensures
        chunk_len(total, unit, parts) < total + unit,
{
    let per = geometry::ceil_div(total, parts);
    geometry::lemma_ceil_div(total, parts);
    geometry::lemma_ceil_div(per, unit);
    vstd::arithmetic::div_mod::lemma_fundamental_div_mod(per, unit);
    let whole = per / unit;
    assert((whole + 1) * unit == unit * whole + unit) by (nonlinear_arith);
    assert(whole * unit == unit * whole) by (nonlinear_arith);
    vstd::arithmetic::div_mod::lemma_mod_bound(per, unit);
}

/// Length of the chunks that split `total` elements over `parts` workers on multiples of
/// `unit`.
pub fn balanced_chunk_len(total: usize, unit: usize, parts: usize) -> (n: usize)
    requires
        chunk_len(total as int, unit as int, parts as int) <= usize::MAX,
    ensures
        n == chunk_len(total as int, unit as int, parts as int),
        n as int % (if unit == 0 {
            1
        } else {
            unit as int
        }) == 0,
        total > 0 ==> n > 0,
        n * (if parts == 0 {
            1
        } else {
            parts as int
        }) >= total,
{
    let u: usize = if unit == 0 {
        1
    } else {
        unit
    };
    let p: usize = if parts == 0 {
        1
    } else {
        parts
    };
    let per: usize = geometry::div_up(total, p);
    let units: usize = geometry::div_up(per, u);
    proof {
        geometry::lemma_ceil_div(total as int, p as int);
        geometry::lemma_ceil_div(per as int, u as int);
        vstd::arithmetic::div_mod::lemma_mod_multiples_basic(units as int, u as int);
        assert(units * u * p >= total) by (nonlinear_arith)
            requires
                units * u >= per,
                per * p >= total,
                p >= 1,
        ;
        assert(units * u >= 0) by (nonlinear_arith)
            requires
                units >= 0,
                u >= 0,
        ;
        if units * u == 0 {
            assert(units * u * p == 0) by (nonlinear_arith)
                requires
                    units * u == 0,
            ;
        }
    }
    units * u
}

} // verus!
