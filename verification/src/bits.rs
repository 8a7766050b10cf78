//! Bit strings, least significant bit first, and the byte buffers that hold them.
use vstd::arithmetic::div_mod::*;
use vstd::arithmetic::mul::*;
use vstd::arithmetic::power2::*;
use vstd::prelude::*;

verus! {

/// `1` for a set bit and `0` for a clear one.
pub open spec fn bit_value(b: bool) -> nat {
    if b {
        1
    } else {
        0
    }
}

/// The number that a bit string stands for.
pub open spec fn val(bits: Seq<bool>) -> nat
    decreases bits.len(),
{
    if bits.len() == 0 {
        0
    } else {
        val(bits.drop_last()) + bit_value(bits.last()) * pow2((bits.len() - 1) as nat)
    }
}

/// Bit `i` of the number `v`.
pub open spec fn nth_bit(v: nat, i: nat) -> bool {
    (v / pow2(i)) % 2 == 1
}

/// The `width` low bits of `v`.
pub open spec fn field(v: nat, width: nat) -> Seq<bool> {
    Seq::new(width, |i: int| nth_bit(v, i as nat))
}

/// Bit `k` of a byte.
pub open spec fn byte_bit(b: u8, k: int) -> bool {
    (b >> (k as u8)) & 1u8 == 1u8
}

/// All bits of a byte buffer, in order.
pub open spec fn stream(bytes: Seq<u8>) -> Seq<bool> {
    Seq::new(8 * bytes.len(), |i: int| byte_bit(bytes[i / 8], i % 8))
}

/// A bit string followed by clear bits up to the next byte boundary.
pub open spec fn padded(bits: Seq<bool>) -> Seq<bool> {
    bits + Seq::new(pad_len(bits.len()), |i: int| false)
}

/// How many bits are missing up to the next byte boundary.
pub open spec fn pad_len(n: nat) -> nat {
    ((8 - n % 8) % 8) as nat
}

pub proof fn lemma_val_bound(bits: Seq<bool>)
    ensures
        val(bits) < pow2(bits.len()),
    decreases bits.len(),
{
    if bits.len() == 0 {
        lemma2_to64();
    } else {
        lemma_val_bound(bits.drop_last());
        lemma_pow2_unfold(bits.len());
        let m = pow2((bits.len() - 1) as nat);
        assert(bit_value(bits.last()) * m <= m) by (nonlinear_arith)
            requires
                bit_value(bits.last()) <= 1,
        ;
    }
}

pub proof fn lemma_val_push(bits: Seq<bool>, b: bool)
    ensures
        val(bits.push(b)) == val(bits) + bit_value(b) * pow2(bits.len()),
{
    assert(bits.push(b).drop_last() =~= bits);
}

/// Reading back the `width` low bits of `v` gives `v` modulo `2^width`.
pub proof fn lemma_val_field(v: nat, width: nat)
    ensures
        val(field(v, width)) == v % pow2(width),
    decreases width,
{
    if width == 0 {
        lemma2_to64();
        assert(v % 1 == 0) by (nonlinear_arith);
    } else {
        let w = (width - 1) as nat;
        lemma_val_field(v, w);
        assert(field(v, width).drop_last() =~= field(v, w));
        lemma_pow2_pos(w);
        lemma_pow2_unfold(width);
        lemma_mod_breakdown(v as int, pow2(w) as int, 2);
        lemma_mul_is_commutative(pow2(w) as int, 2);
        let q = (v / pow2(w)) % 2;
        assert(bit_value(q == 1) == q);
        lemma_mul_is_commutative(pow2(w) as int, q as int);
    }
}

pub proof fn lemma_val_field_small(v: nat, width: nat)
    requires
        v < pow2(width),
    ensures
        val(field(v, width)) == v,
{
    lemma_val_field(v, width);
    lemma_small_mod(v, pow2(width));
}

/// A bit string is the field of its own value.
pub proof fn lemma_field_val(bits: Seq<bool>)
    ensures
        field(val(bits), bits.len()) == bits,
    decreases bits.len(),
{
    if bits.len() > 0 {
        let init = bits.drop_last();
        let m = init.len();
        lemma_field_val(init);
        lemma_val_bound(init);
        lemma_pow2_pos(m);
        let a = val(init);
        let b = bit_value(bits.last());
        let v = val(bits);
        assert(v == a + b * pow2(m));
        assert forall|j: int| 0 <= j < bits.len() implies nth_bit(v, j as nat) == bits[j] by {
            if j == m {
                lemma_fundamental_div_mod_converse(v as int, pow2(m) as int, b as int, a as int);
            } else {
                let jn = j as nat;
                let k = (m - jn - 1) as nat;
                lemma_pow2_pos(jn);
                lemma_pow2_adds(jn, (k + 1) as nat);
                lemma_pow2_unfold(k + 1);
                let d = pow2(jn);
                let e = b * pow2(k);
                assert(b * pow2(m) == d * (2 * e)) by (nonlinear_arith)
                    requires
                        pow2(m) == d * (2 * pow2(k)),
                        e == b * pow2(k),
                ;
                lemma_hoist_over_denominator(a as int, (2 * e) as int, d);
                lemma_mul_is_commutative((2 * e) as int, d as int);
                assert(v / d == a / d + 2 * e);
                assert((a / d + 2 * e) % 2 == (a / d) % 2);
                assert(field(val(init), m)[j] == init[j]);
            }
        }
        assert(field(v, bits.len()) =~= bits);
    }
}

/// Two byte buffers with the same bits are equal.
pub proof fn lemma_stream_injective(a: Seq<u8>, b: Seq<u8>)
    requires
        stream(a) == stream(b),
    ensures
        a == b,
{
    assert(stream(a).len() == 8 * a.len());
    assert(stream(b).len() == 8 * b.len());
    assert forall|i: int| 0 <= i < a.len() implies a[i] == b[i] by {
        let x = a[i];
        let y = b[i];
        assert forall|k: int| 0 <= k < 8 implies byte_bit(x, k) == byte_bit(y, k) by {
            let j = 8 * i + k;
            assert(j / 8 == i && j % 8 == k);
            assert(stream(a)[j] == byte_bit(a[j / 8], j % 8));
            assert(stream(b)[j] == byte_bit(b[j / 8], j % 8));
        }
        assert(byte_bit(x, 0) == byte_bit(y, 0));
        assert(byte_bit(x, 1) == byte_bit(y, 1));
        assert(byte_bit(x, 2) == byte_bit(y, 2));
        assert(byte_bit(x, 3) == byte_bit(y, 3));
        assert(byte_bit(x, 4) == byte_bit(y, 4));
        assert(byte_bit(x, 5) == byte_bit(y, 5));
        assert(byte_bit(x, 6) == byte_bit(y, 6));
        assert(byte_bit(x, 7) == byte_bit(y, 7));
        assert(x == y) by (bit_vector)
            requires
                ((x >> 0u8) & 1u8 == 1u8) == ((y >> 0u8) & 1u8 == 1u8),
                ((x >> 1u8) & 1u8 == 1u8) == ((y >> 1u8) & 1u8 == 1u8),
                ((x >> 2u8) & 1u8 == 1u8) == ((y >> 2u8) & 1u8 == 1u8),
                ((x >> 3u8) & 1u8 == 1u8) == ((y >> 3u8) & 1u8 == 1u8),
                ((x >> 4u8) & 1u8 == 1u8) == ((y >> 4u8) & 1u8 == 1u8),
                ((x >> 5u8) & 1u8 == 1u8) == ((y >> 5u8) & 1u8 == 1u8),
                ((x >> 6u8) & 1u8 == 1u8) == ((y >> 6u8) & 1u8 == 1u8),
                ((x >> 7u8) & 1u8 == 1u8) == ((y >> 7u8) & 1u8 == 1u8),
        ;
    }
    assert(a =~= b);
}

/// Number of bits needed to write `x`: `0` for `0`, else `floor(log2 x) + 1`.
pub open spec fn bit_length(x: nat) -> nat
    decreases x,
{
    if x == 0 {
        0
    } else {
        1 + bit_length(x / 2)
    }
}

/// `bit_length(x)` is the least width that holds `x`.
pub proof fn lemma_bit_length(x: nat)
    ensures
        x < pow2(bit_length(x)),
        x > 0 ==> bit_length(x) > 0 && pow2((bit_length(x) - 1) as nat) <= x,
    decreases x,
{
    if x == 0 {
        lemma2_to64();
    } else {
        lemma_bit_length(x / 2);
        lemma_pow2_unfold(bit_length(x));
        if x == 1 {
            lemma2_to64();
            assert(bit_length(0) == 0);
        } else {
            lemma_pow2_unfold((bit_length(x) - 1) as nat);
        }
    }
}

pub proof fn lemma_bit_length_bound(x: nat, w: nat)
    requires
        x < pow2(w),
    ensures
        bit_length(x) <= w,
{
    lemma_bit_length(x);
    if bit_length(x) > w {
        if w < bit_length(x) - 1 {
            lemma_pow2_strictly_increases(w, (bit_length(x) - 1) as nat);
        }
    }
}

proof fn lemma_leading_zeros(x: u64)
    ensures
        vstd::std_specs::bits::u64_leading_zeros(x) == 64 - bit_length(x as nat),
    decreases x,
{
    reveal(vstd::std_specs::bits::u64_leading_zeros);
    if x > 0 {
        lemma_leading_zeros(x / 2);
    }
}

/// Number of bits needed to write `x` as an index: `0` if `x == 0`, else
/// `floor(log2 x) + 1`.
pub fn bitlen(x: u64) -> (n: u32)
    ensures
        n == bit_length(x as nat),
        n <= 64,
{
    proof {
        lemma_leading_zeros(x);
        lemma2_to64();
        lemma_bit_length_bound(x as nat, 64);
    }
    if x == 0 {
        0
    } else {
        64 - x.leading_zeros()
    }
}

} // verus!
