//! Splitting fingerprints into plaintext elements.
use vstd::arithmetic::div_mod::*;
use vstd::arithmetic::power2::*;
use vstd::bits::*;
use vstd::prelude::*;

verus! {

/// Modulus of fingerprints of `fp_bits` bits; 32 bits are the most.
pub open spec fn fp_modulus(fp_bits: u32) -> int {
    if fp_bits >= 32 {
        0x1_0000_0000
    } else {
        pow2(fp_bits as nat) as int
    }
}

/// Digit `i` of `x` to the base `2^bit_len`.
pub open spec fn digit(x: int, bit_len: nat, i: nat) -> int {
    (x / pow2(i * bit_len) as int) % (pow2(bit_len) as int)
}

/// The number whose digits to the base `2^bit_len` are the low bits of the chunks.
pub open spec fn digits_value(chunks: Seq<u32>, bit_len: nat) -> int
    decreases chunks.len(),
{
    if chunks.len() == 0 {
        0
    } else {
        let n = (chunks.len() - 1) as nat;
        digits_value(chunks.drop_last(), bit_len) + (chunks.last() as int % pow2(bit_len) as int)
            * pow2(n * bit_len)
    }
}

/// The chunk `i` of a fingerprint.
pub open spec fn fp_chunk(fp: u32, fp_bits: u32, bit_len: u32, i: int) -> u32 {
    digit(fp as int % fp_modulus(fp_bits), bit_len as nat, i as nat) as u32
}

proof fn lemma_digit_bound(x: int, bit_len: nat, i: nat)
    ensures
        0 <= digit(x, bit_len, i) < pow2(bit_len),
{
    lemma_pow2_pos(bit_len);
    lemma_mod_bound(x / pow2(i * bit_len) as int, pow2(bit_len) as int);
}

proof fn lemma_digits_bound(chunks: Seq<u32>, bit_len: nat)
    ensures
        0 <= digits_value(chunks, bit_len) < pow2(chunks.len() * bit_len),
    decreases chunks.len(),
{
    if chunks.len() == 0 {
        lemma2_to64();
        assert(0 * bit_len == 0) by (nonlinear_arith);
    } else {
        let n = (chunks.len() - 1) as nat;
        lemma_digits_bound(chunks.drop_last(), bit_len);
        lemma_pow2_pos(bit_len);
        lemma_pow2_pos(n * bit_len);
        let a = pow2(n * bit_len) as int;
        let b = pow2(bit_len) as int;
        let c = chunks.last() as int % b;
        lemma_mod_bound(chunks.last() as int, b);
        lemma_pow2_adds(n * bit_len, bit_len);
        assert(chunks.len() * bit_len == n * bit_len + bit_len) by (nonlinear_arith)
            requires
                n == chunks.len() - 1,
        ;
        assert(0 <= c * a && a + c * a <= a * b) by (nonlinear_arith)
            requires
                0 <= c <= b - 1,
                a > 0,
        ;
    }
}

/// The digits of a number give the number, up to what more digits would hold.
proof fn lemma_digits_of(x: int, chunks: Seq<u32>, bit_len: nat)
    requires
        0 <= x,
        forall|i: int| 0 <= i < chunks.len() ==> #[trigger] chunks[i] == digit(x, bit_len, i as nat),
    ensures
        digits_value(chunks, bit_len) == x % (pow2(chunks.len() * bit_len) as int),
    decreases chunks.len(),
{
    if chunks.len() == 0 {
        lemma2_to64();
        assert(0 * bit_len == 0) by (nonlinear_arith);
    } else {
        let n = (chunks.len() - 1) as nat;
        let init = chunks.drop_last();
        assert forall|i: int| 0 <= i < init.len() implies #[trigger] init[i] == digit(
            x,
            bit_len,
            i as nat,
        ) by {
            assert(init[i] == chunks[i]);
        }
        lemma_digits_of(x, init, bit_len);
        let a = pow2(n * bit_len) as int;
        let b = pow2(bit_len) as int;
        lemma_pow2_pos(n * bit_len);
        lemma_pow2_pos(bit_len);
        lemma_pow2_adds(n * bit_len, bit_len);
        assert(chunks.len() * bit_len == n * bit_len + bit_len) by (nonlinear_arith)
            requires
                n == chunks.len() - 1,
        ;
        lemma_mod_breakdown(x, a, b);
        assert(chunks[n as int] == digit(x, bit_len, n));
        lemma_mod_twice(x / a, b);
        assert(a * ((x / a) % b) == ((x / a) % b) * a) by (nonlinear_arith);
    }
}

/// Chunks that start at 32 bits or later do not matter.
proof fn lemma_high_chunks(chunks: Seq<u32>, bit_len: nat, n: int)
    requires
        0 <= n <= chunks.len(),
        n * bit_len >= 32,
    ensures
        digits_value(chunks, bit_len) % 0x1_0000_0000 == digits_value(chunks.take(n), bit_len)
            % 0x1_0000_0000,
    decreases chunks.len() - n,
{
    if n == chunks.len() {
        assert(chunks.take(n) =~= chunks);
    } else {
        let init = chunks.drop_last();
        let m = (chunks.len() - 1) as nat;
        lemma_high_chunks(init, bit_len, n);
        assert(init.take(n) =~= chunks.take(n));
        assert(m * bit_len >= 32) by (nonlinear_arith)
            requires
                m >= n,
                n * bit_len >= 32,
                bit_len >= 0,
        ;
        let e = (m * bit_len - 32) as nat;
        lemma_pow2_adds(32, e);
        lemma2_to64();
        let c = chunks.last() as int % pow2(bit_len) as int;
        let p = pow2(e) as int;
        assert(c * (0x1_0000_0000 * p) == 0x1_0000_0000 * (c * p)) by (nonlinear_arith);
        lemma_mod_multiples_vanish(c * p, digits_value(init, bit_len), 0x1_0000_0000);
    }
}

/// Modulus as a number, for up to 31 bits.
fn low_mask(bits: u32) -> (m: u32)
    requires
        bits <= 31,
    ensures
        m == pow2(bits as nat),
        m > 0,
{
    proof {
        lemma_pow2_pos(bits as nat);
        lemma2_to64();
        if bits < 31 {
            lemma_pow2_strictly_increases(bits as nat, 31);
        }
        lemma_u32_shl_is_mul(1, bits);
    }
    1u32 << bits
}

/// A fingerprint, cut to its width.
fn cut(fp: u32, fp_bits: u32) -> (x: u32)
    ensures
        x == fp as int % fp_modulus(fp_bits),
{
    if fp_bits >= 32 {
        fp
    } else {
        fp % low_mask(fp_bits)
    }
}

/// Splits a fingerprint into chunks of `bit_len` bits, least significant first.
pub fn encode_fp_into(fp: u32, fp_bits: u32, bit_len: u32, dst: &mut [u32])
    requires
        1 <= bit_len < 32,
    ensures
        final(dst)@.len() == old(dst)@.len(),
        forall|i: int|
            0 <= i < final(dst)@.len() ==> #[trigger] final(dst)@[i] == fp_chunk(
                fp,
                fp_bits,
                bit_len,
                i,
            ),
{
    let x: u32 = cut(fp, fp_bits);
    let base: u32 = low_mask(bit_len);
    let mut i: usize = 0;
    while i < dst.len()
        invariant
            i <= dst@.len() == old(dst)@.len(),
            1 <= bit_len < 32,
            base == pow2(bit_len as nat),
            base > 0,
            x == fp as int % fp_modulus(fp_bits),
            forall|k: int|
                0 <= k < i ==> #[trigger] dst@[k] == fp_chunk(fp, fp_bits, bit_len, k),
        decreases dst@.len() - i,
    {
        let ghost e = i as nat * bit_len as nat;
        proof {
            lemma_pow2_pos(bit_len as nat);
            lemma_pow2_pos(e);
            lemma_digit_bound(x as int, bit_len as nat, i as nat);
            assert(i < 32 ==> i * bit_len <= 32 * 32) by (nonlinear_arith)
                requires
                    0 <= bit_len <= 32,
                    0 <= i,
            ;
        }
        if i < 32 && (i as u64) * (bit_len as u64) < 32 {
            let shift: u32 = (i as u32) * bit_len;
            proof {
                lemma_u32_shr_is_div(x, shift);
            }
            dst[i] = (x >> shift) % base;
        } else {
            proof {
                assert(e >= 32) by (nonlinear_arith)
                    requires
                        e == i * bit_len,
                        i >= 32 || i * bit_len >= 32,
                        bit_len >= 1,
                ;
                lemma2_to64();
                if e > 32 {
                    lemma_pow2_strictly_increases(32, e);
                }
                lemma_basic_div(x as int, pow2(e) as int);
                lemma_small_mod(0, pow2(bit_len as nat));
            }
            dst[i] = 0;
        }
        i = i + 1;
    }
}

/// Puts a fingerprint together from chunks of `bit_len` bits, least significant first, and
/// cuts it to its width.
pub fn decode_fp(chunks: &[u32], fp_bits: u32, bit_len: u32) -> (fp: u32)
    requires
        1 <= bit_len < 32,
    ensures
        fp == digits_value(chunks@, bit_len as nat) % fp_modulus(fp_bits),
{
    let base: u32 = low_mask(bit_len);
    let ghost b = bit_len as nat;
    let mut acc: u64 = 0;
    let mut i: usize = 0;
    let mut shift: u32 = 0;
    proof {
        assert(chunks@.take(0) =~= Seq::empty());
        assert(0 * b == 0) by (nonlinear_arith);
        lemma_pow2_pos(b);
    }
    while i < chunks.len() && shift < 32
        invariant
            i <= chunks@.len(),
            1 <= bit_len < 32,
            b == bit_len,
            base == pow2(b),
            base > 0,
            shift == i * b,
            shift <= 62,
            acc == digits_value(chunks@.take(i as int), b),
        decreases chunks@.len() - i,
    {
        let piece: u32 = chunks[i] % base;
        proof {
            let t = chunks@.take(i as int);
            let t2 = chunks@.take(i as int + 1);
            assert(t2.drop_last() =~= t);
            assert(t2.last() == chunks@[i as int]);
            lemma_digits_bound(t2, b);
            assert((i + 1) * b == i * b + b) by (nonlinear_arith);
            lemma2_to64();
            lemma2_to64_rest();
            lemma_pow2_strictly_increases((shift + bit_len) as nat, 63);
            lemma_digits_bound(t, b);
            let p = pow2(shift as nat) as int;
            assert(piece * p <= 0x7fff_ffff_ffff_ffff);
            lemma_u64_shl_is_mul(piece as u64, shift as u64);
        }
        acc = acc + ((piece as u64) << shift);
        shift = shift + bit_len;
        i = i + 1;
    }
    let low: u32 = (acc % 0x1_0000_0000) as u32;
    proof {
        let v = digits_value(chunks@, b);
        if i == chunks@.len() {
            assert(chunks@.take(i as int) =~= chunks@);
        } else {
            lemma_high_chunks(chunks@, b, i as int);
        }
        assert(low as int == v % 0x1_0000_0000);
        if fp_bits < 32 {
            lemma2_to64();
            let e = (32 - fp_bits) as nat;
            lemma_pow2_adds(fp_bits as nat, e);
            lemma_pow2_pos(fp_bits as nat);
            lemma_pow2_pos(e);
            lemma_mod_mod(v, pow2(fp_bits as nat) as int, pow2(e) as int);
        } else {
            lemma_mod_twice(v, 0x1_0000_0000);
        }
    }
    cut(low, fp_bits)
}

/// Chunks of a fingerprint are below `2^bit_len`.
pub proof fn law_fp_chunks_in_range(fp: u32, fp_bits: u32, bit_len: u32, i: int)
    requires
        1 <= bit_len < 32,
        0 <= i,
    ensures
        fp_chunk(fp, fp_bits, bit_len, i) < pow2(bit_len as nat),
{
    lemma_digit_bound(fp as int % fp_modulus(fp_bits), bit_len as nat, i as nat);
    lemma2_to64();
    lemma_pow2_strictly_increases(bit_len as nat, 32);
}

/// Enough chunks of a fingerprint give the fingerprint, cut to its width.
pub proof fn law_fp_round_trip(fp: u32, fp_bits: u32, bit_len: u32, chunks: Seq<u32>)
    requires
        1 <= bit_len < 32,
        chunks.len() * bit_len >= fp_bits,
        forall|i: int|
            0 <= i < chunks.len() ==> #[trigger] chunks[i] == fp_chunk(fp, fp_bits, bit_len, i),
    ensures
        digits_value(chunks, bit_len as nat) % fp_modulus(fp_bits) == fp as int % fp_modulus(
            fp_bits,
        ),
{
    let b = bit_len as nat;
    let m = fp_modulus(fp_bits);
    lemma2_to64();
    lemma_pow2_pos(fp_bits as nat);
    lemma_pow2_strictly_increases(b, 32);
    lemma_mod_bound(fp as int, m);
    let x = fp as int % m;
    assert forall|i: int| 0 <= i < chunks.len() implies #[trigger] chunks[i] == digit(
        x,
        b,
        i as nat,
    ) by {
        lemma_digit_bound(x, b, i as nat);
    }
    lemma_digits_of(x, chunks, b);
    let n = chunks.len() * b;
    let w: nat = if fp_bits >= 32 {
        32
    } else {
        fp_bits as nat
    };
    assert(m == pow2(w));
    if w < n {
        lemma_pow2_strictly_increases(w, n);
    }
    lemma_small_mod(x as nat, pow2(n));
    lemma_mod_twice(fp as int, m);
}

} // verus!
