//! Scaling between plaintext cells and ciphertext residues.
use vstd::arithmetic::div_mod::*;
use vstd::arithmetic::power2::*;
use vstd::prelude::*;

use crate::arith;

verus! {

/// Ciphertext bits.
pub const CIPHERTEXT_MODULUS_BITS: u32 = 32;

/// The scale `q / p` for plaintext cells of `plaintext_bits` bits.
pub open spec fn delta(plaintext_bits: u32) -> int {
    pow2((32 - plaintext_bits) as nat) as int
}

/// The residue rounded to the nearest multiple of the scale, halves up, and divided by it.
pub open spec fn rounded(y: u32, plaintext_bits: u32) -> u32 {
    (arith::wrap(y + delta(plaintext_bits) / 2) as int / delta(plaintext_bits)) as u32
}

/// The scale times the plaintext modulus is the ciphertext modulus, and the scale is even.
pub proof fn lemma_delta(plaintext_bits: u32)
    requires
        1 <= plaintext_bits <= 31,
    ensures
        2 <= delta(plaintext_bits) <= 0x8000_0000,
        delta(plaintext_bits) * pow2(plaintext_bits as nat) == 0x1_0000_0000,
        delta(plaintext_bits) % 2 == 0,
        delta(plaintext_bits) == 2 * pow2((31 - plaintext_bits) as nat),
        pow2(plaintext_bits as nat) >= 2,
{
    let s = (32 - plaintext_bits) as nat;
    lemma2_to64();
    lemma_pow2_adds(s, plaintext_bits as nat);
    lemma_pow2_unfold(s);
    lemma_pow2_unfold(plaintext_bits as nat);
    lemma_pow2_pos((s - 1) as nat);
    lemma_pow2_pos((plaintext_bits - 1) as nat);
    if s < 31 {
        lemma_pow2_strictly_increases(s, 31);
    }
}

/// The scale as a number.
pub fn scale(plaintext_bits: u32) -> (d: u32)
    requires
        1 <= plaintext_bits <= 31,
    ensures
        d == delta(plaintext_bits),
{
    let s: u32 = CIPHERTEXT_MODULUS_BITS - plaintext_bits;
    proof {
        lemma_delta(plaintext_bits);
        vstd::bits::lemma_u32_shl_is_mul(1, s);
    }
    1u32 << s
}

/// Scales a plaintext cell up: `x * delta`.
pub fn round_p_to_q(x: u32, plaintext_bits: u32) -> (y: u32)
    requires
        1 <= plaintext_bits <= 31,
    ensures
        y == arith::wrap(x * delta(plaintext_bits)),
{
    x.wrapping_mul(scale(plaintext_bits))
}

/// Rounds a residue to the nearest multiple of the scale and divides by it.
pub fn round_q_to_p(y: u32, plaintext_bits: u32) -> (x: u32)
    requires
        1 <= plaintext_bits <= 31,
    ensures
        x == rounded(y, plaintext_bits),
        x < pow2(plaintext_bits as nat),
{
    let d: u32 = scale(plaintext_bits);
    let r: u32 = y.wrapping_add(d / 2);
    proof {
        lemma_delta(plaintext_bits);
        let p = pow2(plaintext_bits as nat) as int;
        assert((r as int) / (d as int) < p) by (nonlinear_arith)
            requires
                0 <= r < d * p,
                d > 0,
        ;
    }
    r / d
}

/// Noise of less than half the scale is rounded away.
pub proof fn law_rounding_removes_noise(x: int, noise: int, plaintext_bits: u32)
    requires
        1 <= plaintext_bits <= 31,
        0 <= x < pow2(plaintext_bits as nat),
        -(delta(plaintext_bits) / 2) <= noise < delta(plaintext_bits) / 2,
    ensures
        rounded(arith::wrap(x * delta(plaintext_bits) + noise), plaintext_bits) == x,
{
    let d = delta(plaintext_bits);
    let p = pow2(plaintext_bits as nat) as int;
    lemma_delta(plaintext_bits);
    let t = x * d + noise;
    arith::lemma_wrap_add(t, d / 2);
    let u = noise + d / 2;
    assert(t + d / 2 == x * d + u);
    assert(0 <= x * d + u < d * p) by (nonlinear_arith)
        requires
            0 <= x <= p - 1,
            0 <= u < d,
    ;
    lemma_small_mod((x * d + u) as nat, 0x1_0000_0000);
    lemma_fundamental_div_mod_converse(x * d + u, d, x, u);
}

} // verus!
