//! Values, fingerprints, slots and numbers, and what their encodings say of them.
use vstd::arithmetic::div_mod::*;
use vstd::arithmetic::power2::*;
use vstd::prelude::*;

use crate::bits;
use crate::fingerprint;
use crate::geometry::CuckooParams;
use crate::lwe;
use crate::params::FilterParams;
use crate::server::slots;
use crate::text;

verus! {

// ---------------------------------------------------------------- ternary residues
/// A word gives -1, 0 or 1 by its two lowest bits: 0 where they differ, and opposite residues
/// where both are clear and where both are set. Taking every bit of the word to its opposite
/// negates the residue, and the higher bits do not matter.
pub proof fn law_ternary_residue(word: u32)
    ensures
        word % 4 == 1 || word % 4 == 2 ==> lwe::ternary_of(word) == 0,
        word % 4 == 0 ==> lwe::ternary_of(word) == 0xffff_ffff,
        word % 4 == 3 ==> lwe::ternary_of(word) == 1,
        (lwe::ternary_of(word) + lwe::ternary_of((0xffff_ffff - word) as u32)) % 0x1_0000_0000
            == 0,
        lwe::ternary_of(word) == lwe::ternary_of(word % 4),
{
}

// ---------------------------------------------------------------- values
/// Values are packed and unpacked at every width of 1 to 31 bits, and at no other.
pub proof fn law_packing_widths(p: FilterParams)
    ensures
        lwe::width_ok(p) <==> 1 <= p.mat_elem_bit_len <= 31,
{
}

/// Bit `i` of a packed value is bit `i % w` of its element `i / w`, where `w` is the width; bits
/// past the value are clear.
pub proof fn law_packed_bit(value: Seq<u8>, p: FilterParams, i: int)
    requires
        1 <= p.mat_elem_bit_len <= 31,
        0 <= i < p.row_elems * p.mat_elem_bit_len,
    ensures
        ({
            let w = p.mat_elem_bit_len as int;
            let elems = lwe::packed(value, p);
            let bit = (elems[i / w] as int / pow2((i % w) as nat) as int) % 2;
            &&& elems.len() == p.row_elems
            &&& bit == if i < 8 * value.len() && (value[i / 8] >> ((i % 8) as u8)) & 1u8 == 1u8 {
                1int
            } else {
                0
            }
        }),
{
    let w = p.mat_elem_bit_len as int;
    let s = bits::stream(value);
    let idx = i / w;
    let k = i % w;
    lemma_fundamental_div_mod(i, w);
    lemma_mod_bound(i, w);
    lemma_div_pos_is_pos(i, w);
    assert(idx * w == w * idx) by (nonlinear_arith);
    assert(idx < p.row_elems) by (nonlinear_arith)
        requires
            idx * w <= i,
            i < p.row_elems * w,
            w > 0,
    ;
    let c = lwe::chunk(s, idx * w, w as nat);
    bits::lemma_val_bound(c);
    bits::lemma_field_val(c);
    lemma2_to64();
    lemma_pow2_strictly_increases(w as nat, 32);
    assert(lwe::packed(value, p)[idx] == bits::val(c));
    assert(bits::field(bits::val(c), w as nat)[k] == c[k]);
    assert(c[k] == lwe::bit_at(s, i));
    let v = bits::val(c);
    lemma_pow2_pos(k as nat);
    lemma_mod_bound(v as int / pow2(k as nat) as int, 2);
    assert(bits::nth_bit(v, k as nat) == c[k]);
}

/// What is unpacked from a packed value is the value, at every width of 1 to 31 bits at which
/// its elements hold all of its bits.
pub proof fn law_value_comes_back(value: Seq<u8>, p: FilterParams, out: Seq<u8>)
    requires
        1 <= p.mat_elem_bit_len <= 31,
        value.len() == p.value_len,
        p.row_elems * p.mat_elem_bit_len >= 8 * p.value_len,
        lwe::is_unpacked(lwe::packed(value, p), p, out),
    ensures
        out == value,
{
    lwe::law_unpack_pack(value, p, out);
}

/// What elements unpack to has the value's length and is determined by the elements: bit `i` is
/// bit `i % w` of element `i / w`, and clear where there is no such element.
pub proof fn law_unpacked_bit(elems: Seq<u32>, p: FilterParams, out: Seq<u8>, i: int)
    requires
        1 <= p.mat_elem_bit_len <= 31,
        lwe::is_unpacked(elems, p, out),
        0 <= i < 8 * p.value_len,
    ensures
        out.len() == p.value_len,
        ({
            let w = p.mat_elem_bit_len as int;
            (out[i / 8] >> ((i % 8) as u8)) & 1u8 == 1u8 <==> i / w < elems.len() && (elems[i / w]
                as int / pow2((i % w) as nat) as int) % 2 == 1
        }),
{
    assert(bits::stream(out)[i] == lwe::payload_bit(elems, p.mat_elem_bit_len as int, i));
}

// ---------------------------------------------------------------- fingerprints
/// A fingerprint is cut to its width, of which at most 32 bits count, and its chunks are its
/// digits, the lowest first: each chunk is below `2^bit_len`, and the digits give it back.
pub proof fn law_fingerprint_comes_back(fp: u32, fp_bits: u32, bit_len: u32, chunks: Seq<u32>)
    requires
        1 <= bit_len <= 31,
        fp_bits <= 32,
        chunks.len() * bit_len >= fp_bits,
        forall|i: int|
            0 <= i < chunks.len() ==> #[trigger] chunks[i] == fingerprint::fp_chunk(
                fp,
                fp_bits,
                bit_len,
                i,
            ),
    ensures
        fingerprint::digits_value(chunks, bit_len as nat) % fingerprint::fp_modulus(fp_bits)
            == fp as int % pow2(fp_bits as nat) as int,
        fp < pow2(fp_bits as nat) ==> fingerprint::digits_value(chunks, bit_len as nat)
            % fingerprint::fp_modulus(fp_bits) == fp,
{
    fingerprint::law_fp_round_trip(fp, fp_bits, bit_len, chunks);
    lemma2_to64();
    lemma_pow2_pos(fp_bits as nat);
    if fp < pow2(fp_bits as nat) {
        lemma_small_mod(fp as nat, pow2(fp_bits as nat));
    }
}

/// Chunks are read as digits, the lowest first: one more chunk adds its low bits times the
/// place that it has, however many chunks there are.
pub proof fn law_digits_in_places(chunks: Seq<u32>, c: u32, bit_len: nat)
    ensures
        fingerprint::digits_value(Seq::empty(), bit_len) == 0,
        fingerprint::digits_value(chunks.push(c), bit_len) == fingerprint::digits_value(
            chunks,
            bit_len,
        ) + (c as int % pow2(bit_len) as int) * pow2(chunks.len() * bit_len),
{
    assert(chunks.push(c).drop_last() =~= chunks);
}

/// Chunk `i` of a fingerprint is its digit at place `i`.
pub proof fn law_chunk_is_digit(fp: u32, fp_bits: u32, bit_len: u32, i: int)
    requires
        1 <= bit_len <= 31,
        fp_bits <= 32,
        0 <= i,
    ensures
        fingerprint::fp_chunk(fp, fp_bits, bit_len, i) == ((fp as int % pow2(fp_bits as nat) as int)
            / pow2((i * bit_len) as nat) as int) % pow2(bit_len as nat) as int,
{
    fingerprint::law_fp_chunks_in_range(fp, fp_bits, bit_len, i);
    lemma2_to64();
    assert(i as nat * bit_len as nat == (i * bit_len) as nat) by (nonlinear_arith)
        requires
            i >= 0,
            bit_len >= 0,
    ;
    let x = (fp as int % pow2(fp_bits as nat) as int) / pow2((i * bit_len) as nat) as int;
    lemma_pow2_pos(bit_len as nat);
    lemma_mod_bound(x, pow2(bit_len as nat) as int);
    lemma_pow2_strictly_increases(bit_len as nat, 32);
}

// ---------------------------------------------------------------- slots
/// A slot can be packed at every width of 1 to 32 bits.
pub proof fn law_packable(p: CuckooParams)
    ensures
        slots::packable(p) <==> 1 <= p.plaintext_bits <= 32 && p.fingerprint_bits <= 64
            && p.fingerprint_bits + p.value_bits <= 0xffff_ffff,
{
}

/// The cells of a slot hold the bits of the fingerprint, the bits of the value after them, and
/// clear bits to the end: bit `i` is bit `i % w` of cell `i / w`, where `w` is the width.
pub proof fn law_slot_bit(p: CuckooParams, fp: u64, value: Seq<u32>, i: int)
    requires
        1 <= p.plaintext_bits <= 32,
        p.fingerprint_bits <= 64,
        p.fingerprint_bits + p.value_bits <= 0xffff_ffff,
        0 <= i < p.spec_cells_per_slot() * p.plaintext_bits,
    ensures
        ({
            let w = p.plaintext_bits as int;
            let cell = slots::slot_cell(p, fp, value, i / w) as int;
            let bit = (cell / pow2((i % w) as nat) as int) % 2 == 1;
            let v = i - p.fingerprint_bits;
            &&& i < p.fingerprint_bits ==> bit == ((fp as int / pow2(i as nat) as int) % 2 == 1)
            &&& 0 <= v < p.value_bits ==> bit == (v / w < value.len() && (value[v / w] as int
                / pow2((v % w) as nat) as int) % 2 == 1)
            &&& v >= p.value_bits ==> !bit
        }),
{
    let w = p.plaintext_bits as int;
    let s = slots::slot_bits(p, fp, value);
    let idx = i / w;
    let k = i % w;
    lemma_fundamental_div_mod(i, w);
    lemma_mod_bound(i, w);
    lemma_div_pos_is_pos(i, w);
    assert(idx * w == w * idx) by (nonlinear_arith);
    let c = lwe::chunk(s, idx * w, w as nat);
    bits::lemma_field_val(c);
    assert(bits::field(bits::val(c), w as nat)[k] == c[k]);
    assert(c[k] == lwe::bit_at(s, i));
}

// ---------------------------------------------------------------- numbers
/// The number that decimal digits stand for.
pub open spec fn number_of(digits: Seq<char>) -> int
    decreases digits.len(),
{
    if digits.len() == 0 {
        0
    } else {
        10 * number_of(digits.drop_last()) + (digits.last() as int - 48)
    }
}

/// A number is written in digits that stand for it, without a leading zero.
pub proof fn law_decimal_says_the_number(n: nat)
    ensures
        number_of(text::decimal(n)) == n,
        text::decimal(n).len() >= 1,
        forall|i: int| 0 <= i < text::decimal(n).len() ==> '0' <= #[trigger] text::decimal(n)[i] <= '9',
        n >= 10 ==> text::decimal(n)[0] != '0',
        n < 10 ==> text::decimal(n).len() == 1,
    decreases n,
{
    reveal_with_fuel(number_of, 2);
    if n < 10 {
        assert(text::decimal(n).drop_last() =~= Seq::empty());
    } else {
        law_decimal_says_the_number(n / 10);
        let init = text::decimal(n / 10);
        assert(text::decimal(n).drop_last() =~= init);
        assert(text::decimal(n)[0] == init[0]);
        assert forall|i: int| 0 <= i < text::decimal(n).len() implies '0' <= #[trigger] text::decimal(n)[i] <= '9' by {
            if i < init.len() {
                assert(text::decimal(n)[i] == init[i]);
            }
        }
        if n / 10 < 10 {
            assert(init[0] == text::digit_char(n / 10));
        }
    }
}

} // verus!
