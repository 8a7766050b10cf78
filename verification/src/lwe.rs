//! Ternary samples, the packing of values into plaintext elements, and rounding.
use vstd::arithmetic::div_mod::*;
use vstd::arithmetic::power2::*;
use vstd::bits::*;
use vstd::prelude::*;

use crate::backend::frodo::scaling;
use crate::backend::frodo::scaling::round_q_to_p;
use crate::backend::prg;
use crate::backend::prg::WordSource;
use crate::bits;
use crate::params::{FilterParams, CIPHERTEXT_MODULUS_BITS};

verus! {

// ---------------------------------------------------------------- samples
/// The ternary residue that the low two bits of a word give: -1 for `00`, 1 for `11`, else 0.
pub open spec fn ternary_of(word: u32) -> u32 {
    if word % 4 == 0 {
        u32::MAX
    } else if word % 4 == 3 {
        1
    } else {
        0
    }
}

/// Draws one ternary residue.
pub fn sample_ternary<R: WordSource>(rng: &mut R) -> (x: u32)
    requires
        old(rng).ready(),
    ensures
        final(rng).ready(),
        exists|word: u32| #[trigger] old(rng).gives(word, *final(rng)) && x == ternary_of(word),
{
    let word: u32 = rng.next_u32();
    let low: u32 = word & 3;
    assert(low == word % 4) by (bit_vector)
        requires
            low == word & 3,
    ;
    if low == 0 {
        u32::MAX
    } else if low == 3 {
        1
    } else {
        0
    }
}

/// Draws `n` ternary residues, one word each.
pub fn sample_ternary_vec<R: WordSource>(rng: &mut R, n: usize) -> (v: Vec<u32>)
    requires
        old(rng).ready(),
    ensures
        final(rng).ready(),
        exists|words: Seq<u32>|
            #[trigger] prg::draws(*old(rng), words, *final(rng)) && words.len() == n && v@
                == words.map_values(|w: u32| ternary_of(w)),
{
    let ghost mut words: Seq<u32> = Seq::empty();
    let mut out: Vec<u32> = Vec::with_capacity(n);
    let mut i: usize = 0;
    proof {
        assert(out@ =~= words.map_values(|w: u32| ternary_of(w)));
    }
    while i < n
        invariant
            i <= n,
            rng.ready(),
            words.len() == i,
            prg::draws(*old(rng), words, *rng),
            out@ == words.map_values(|w: u32| ternary_of(w)),
        decreases n - i,
    {
        let ghost before = *rng;
        let x: u32 = sample_ternary(rng);
        out.push(x);
        proof {
            let word = choose|word: u32|
                #[trigger] before.gives(word, *rng) && x == ternary_of(word);
            prg::lemma_draws_push(*old(rng), words, before, word, *rng);
            words = words.push(word);
            assert(out@ =~= words.map_values(|w: u32| ternary_of(w)));
        }
        i = i + 1;
    }
    out
}

// ---------------------------------------------------------------- packing
/// Bit `i` of a bit string that goes on with clear bits.
pub open spec fn bit_at(s: Seq<bool>, i: int) -> bool {
    0 <= i < s.len() && s[i]
}

/// The `width` bits from `at` on.
pub open spec fn chunk(s: Seq<bool>, at: int, width: nat) -> Seq<bool> {
    Seq::new(width, |k: int| bit_at(s, at + k))
}

/// The number that the chunk `idx` of `width` bits of a byte string stands for.
pub open spec fn payload(value: Seq<u8>, idx: int, width: nat) -> nat {
    bits::val(chunk(bits::stream(value), idx * width, width))
}

/// Bit `i` of the numbers, `width` bits each.
pub open spec fn payload_bit(payloads: Seq<u32>, width: int, i: int) -> bool {
    i / width < payloads.len() && bits::nth_bit(payloads[i / width] as nat, (i % width) as nat)
}

/// Whether elements of the parameters' width can be packed.
pub open spec fn width_ok(params: FilterParams) -> bool {
    1 <= params.mat_elem_bit_len < 32
}

/// The elements that a value is packed into.
pub open spec fn packed(value: Seq<u8>, params: FilterParams) -> Seq<u32> {
    Seq::new(
        params.row_elems as nat,
        |i: int| payload(value, i, params.mat_elem_bit_len as nat) as u32,
    )
}

/// `value` is what the elements unpack to.
pub open spec fn is_unpacked(payloads: Seq<u32>, params: FilterParams, value: Seq<u8>) -> bool {
    &&& value.len() == params.value_len
    &&& forall|i: int|
        0 <= i < 8 * value.len() ==> #[trigger] bits::stream(value)[i] == payload_bit(
            payloads,
            params.mat_elem_bit_len as int,
            i,
        )
}

/// Bit `pos` of a byte string.
fn read_bit(value: &[u8], pos: u64) -> (b: bool)
    ensures
        b == bit_at(bits::stream(value@), pos as int),
{
    let at: u64 = pos / 8;
    if at >= value.len() as u64 {
        return false;
    }
    let byte: u8 = value[at as usize];
    let m: u64 = pos % 8;
    proof {
        let mm = m as u8;
        assert(byte >> m == byte >> mm);
        assert(bits::stream(value@)[pos as int] == bits::byte_bit(value@[at as int], m as int));
    }
    (byte >> m) & 1 == 1
}

/// The chunk `idx` of `width` bits as a number.
fn read_payload(value: &[u8], idx: u32, width: u32) -> (x: u32)
    requires
        1 <= width < 32,
    ensures
        x == payload(value@, idx as int, width as nat),
{
    let ghost s = bits::stream(value@);
    proof {
        assert(idx * width <= u32::MAX * 32) by (nonlinear_arith)
            requires
                0 <= idx <= u32::MAX,
                0 <= width <= 32,
        ;
    }
    let base: u64 = (idx as u64) * (width as u64);
    let ghost all = chunk(s, base as int, width as nat);
    let mut x: u32 = 0;
    let mut k: u32 = 0;
    proof {
        lemma2_to64();
        assert(all.take(0) =~= Seq::<bool>::empty());
    }
    while k < width
        invariant
            k <= width < 32,
            s == bits::stream(value@),
            all == chunk(s, base as int, width as nat),
            base <= u32::MAX * 32,
            x == bits::val(all.take(k as int)),
            x < pow2(k as nat),
        decreases width - k,
    {
        let bit: bool = read_bit(value, base + k as u64);
        let w: u32 = if bit {
            1
        } else {
            0
        };
        proof {
            assert(all.take(k as int + 1) =~= all.take(k as int).push(all[k as int]));
            bits::lemma_val_push(all.take(k as int), all[k as int]);
            bits::lemma_val_bound(all.take(k as int + 1));
            lemma2_to64();
            lemma_pow2_strictly_increases(k as nat, 32);
            lemma_u32_pow2_no_overflow(k as nat);
            lemma_u32_shl_is_mul(1u32, k);
            assert(x < (1u32 << k));
            assert((x | (w << k)) == x + w * (1u32 << k)) by (bit_vector)
                requires
                    k < 32,
                    w <= 1,
                    x < (1u32 << k),
            ;
        }
        x = x | (w << k);
        k = k + 1;
    }
    proof {
        assert(all.take(width as int) =~= all);
    }
    x
}

/// Packs a value into `row_elems` elements of `mat_elem_bit_len` bits, least significant
/// bit first; bits past the value are clear.
///
/// `None` where the value's length is not `value_len`, or the width is not from 1 to 31.
pub fn encode_value(value: &[u8], params: &FilterParams) -> (r: Option<Vec<u32>>)
    ensures
        r is Some <==> value@.len() == params.value_len && width_ok(*params),
        r is Some ==> r->0@ == packed(value@, *params),
{
    if value.len() != params.value_len as usize {
        return None;
    }
    let width: u32 = params.mat_elem_bit_len;
    if width == 0 || width >= CIPHERTEXT_MODULUS_BITS {
        return None;
    }
    let n: u32 = params.row_elems;
    let mut out: Vec<u32> = Vec::with_capacity(n as usize);
    let mut i: u32 = 0;
    while i < n
        invariant
            i <= n,
            1 <= width < 32,
            out@.len() == i,
            forall|x: int|
                0 <= x < i ==> #[trigger] out@[x] == payload(value@, x, width as nat) as u32,
        decreases n - i,
    {
        out.push(read_payload(value, i, width));
        i = i + 1;
    }
    proof {
        assert(out@ =~= packed(value@, *params));
    }
    Some(out)
}

/// Bit `i` of the elements.
fn read_payload_bit(payloads: &[u32], width: u32, i: u64) -> (b: bool)
    requires
        1 <= width < 32,
    ensures
        b == payload_bit(payloads@, width as int, i as int),
{
    let idx: u64 = i / (width as u64);
    if idx >= payloads.len() as u64 {
        return false;
    }
    let k: u64 = i % (width as u64);
    let x: u32 = payloads[idx as usize];
    let y: u32 = x >> k;
    proof {
        let kk = k as u32;
        lemma_u32_shr_is_div(x, kk);
        assert(x >> k == x >> kk);
        assert(y & 1 == y % 2) by (bit_vector);
    }
    y & 1 == 1
}

/// Unpacks elements into a value of `value_len` bytes.
///
/// `None` where the number of elements is not `row_elems`, or the width is not from 1 to 31.
pub fn decode_value(payloads: &[u32], params: &FilterParams) -> (r: Option<Vec<u8>>)
    ensures
        r is Some <==> payloads@.len() == params.row_elems && width_ok(*params),
        r is Some ==> is_unpacked(payloads@, *params, r->0@),
{
    if payloads.len() != params.row_elems as usize {
        return None;
    }
    let width: u32 = params.mat_elem_bit_len;
    if width == 0 || width >= CIPHERTEXT_MODULUS_BITS {
        return None;
    }
    let n: u32 = params.value_len;
    let mut out: Vec<u8> = Vec::with_capacity(n as usize);
    let mut i: u32 = 0;
    while i < n
        invariant
            i <= n,
            1 <= width < 32,
            out@.len() == i,
            forall|x: int|
                0 <= x < 8 * i ==> #[trigger] bits::stream(out@)[x] == payload_bit(
                    payloads@,
                    width as int,
                    x,
                ),
        decreases n - i,
    {
        let byte: u8 = unpack_byte(payloads, width, i);
        let ghost before = out@;
        out.push(byte);
        proof {
            assert forall|x: int| 0 <= x < 8 * (i + 1) implies #[trigger] bits::stream(out@)[x]
                == payload_bit(payloads@, width as int, x) by {
                if x < 8 * i {
                    assert(bits::stream(out@)[x] == bits::stream(before)[x]);
                } else {
                    let k = x - 8 * i;
                    assert(x / 8 == i && x % 8 == k);
                    assert(bits::byte_bit(byte, k) == payload_bit(
                        payloads@,
                        width as int,
                        8 * i + k,
                    ));
                }
            }
        }
        i = i + 1;
    }
    Some(out)
}

/// Byte `i` of the value that the elements hold.
fn unpack_byte(payloads: &[u32], width: u32, i: u32) -> (byte: u8)
    requires
        1 <= width < 32,
    ensures
        forall|k: int|
            0 <= k < 8 ==> #[trigger] bits::byte_bit(byte, k) == payload_bit(
                payloads@,
                width as int,
                8 * i + k,
            ),
{
    let mut byte: u8 = 0;
    let mut m: u32 = 0;
    proof {
        assert forall|k: int| 0 <= k < 8 implies !#[trigger] bits::byte_bit(byte, k) by {
            let kk = k as u8;
            assert((0u8 >> kk) & 1u8 == 0u8) by (bit_vector);
        }
    }
    while m < 8
        invariant
            m <= 8,
            1 <= width < 32,
            forall|k: int|
                0 <= k < 8 ==> #[trigger] bits::byte_bit(byte, k) == (k < m && payload_bit(
                    payloads@,
                    width as int,
                    8 * i + k,
                )),
        decreases 8 - m,
    {
        let bit: bool = read_payload_bit(payloads, width, 8 * (i as u64) + m as u64);
        if bit {
            let ghost before = byte;
            byte = byte | (1u8 << m);
            proof {
                assert forall|k: int| 0 <= k < 8 implies #[trigger] bits::byte_bit(byte, k) == (k
                    == m || bits::byte_bit(before, k)) by {
                    let kk = k as u8;
                    let mm = m as u8;
                    assert(1u8 << m == 1u8 << mm);
                    assert(((before | (1u8 << mm)) >> kk) & 1u8 == 1u8 <==> (kk == mm || (before
                        >> kk) & 1u8 == 1u8)) by (bit_vector)
                        requires
                            kk < 8,
                            mm < 8,
                    ;
                }
            }
        }
        m = m + 1;
    }
    byte
}

/// Every element of a packed value is below `2^width`.
pub proof fn law_packed_in_range(value: Seq<u8>, params: FilterParams)
    requires
        width_ok(params),
    ensures
        forall|i: int|
            0 <= i < params.row_elems ==> #[trigger] packed(value, params)[i] < pow2(
                params.mat_elem_bit_len as nat,
            ),
{
    let w = params.mat_elem_bit_len as nat;
    lemma2_to64();
    lemma_pow2_strictly_increases(w, 32);
    assert forall|i: int| 0 <= i < params.row_elems implies #[trigger] packed(value, params)[i]
        < pow2(w) by {
        bits::lemma_val_bound(chunk(bits::stream(value), i * w, w));
    }
}

/// Unpacking a packed value gives the value, where its elements hold all of its bits.
pub proof fn law_unpack_pack(value: Seq<u8>, params: FilterParams, out: Seq<u8>)
    requires
        width_ok(params),
        value.len() == params.value_len,
        params.row_elems * params.mat_elem_bit_len >= 8 * params.value_len,
        is_unpacked(packed(value, params), params, out),
    ensures
        out == value,
{
    let w = params.mat_elem_bit_len as int;
    let s = bits::stream(value);
    let t = bits::stream(out);
    let ps = packed(value, params);
    lemma2_to64();
    lemma_pow2_strictly_increases(w as nat, 32);
    assert forall|i: int| 0 <= i < s.len() implies t[i] == s[i] by {
        let idx = i / w;
        let k = i % w;
        lemma_fundamental_div_mod(i, w);
        lemma_mod_bound(i, w);
        lemma_div_pos_is_pos(i, w);
        assert(idx * w == w * idx) by (nonlinear_arith);
        assert(idx < params.row_elems) by (nonlinear_arith)
            requires
                idx * w <= i,
                i < params.row_elems * w,
                w > 0,
        ;
        let c = chunk(s, idx * w, w as nat);
        bits::lemma_val_bound(c);
        bits::lemma_field_val(c);
        assert(ps[idx] == bits::val(c));
        assert(bits::field(bits::val(c), w as nat)[k] == c[k]);
        assert(t[i] == payload_bit(ps, w, i));
    }
    assert(t =~= s);
    bits::lemma_stream_injective(out, value);
}

// ---------------------------------------------------------------- rounding
/// Rounds every residue to the nearest multiple of the scale and divides by it.
pub fn round_and_extract(slots: &[u32], params: &FilterParams) -> (out: Vec<u32>)
    requires
        width_ok(*params),
    ensures
        out@.len() == slots@.len(),
        forall|i: int|
            0 <= i < slots@.len() ==> #[trigger] out@[i] == scaling::rounded(
                slots@[i],
                params.mat_elem_bit_len,
            ) && out@[i] < pow2(params.mat_elem_bit_len as nat),
{
    let n: usize = slots.len();
    let mut out: Vec<u32> = Vec::with_capacity(n);
    let mut i: usize = 0;
    while i < n
        invariant
            i <= n == slots@.len(),
            width_ok(*params),
            out@.len() == i,
            forall|x: int|
                0 <= x < i ==> #[trigger] out@[x] == scaling::rounded(
                    slots@[x],
                    params.mat_elem_bit_len,
                ) && out@[x] < pow2(params.mat_elem_bit_len as nat),
        decreases n - i,
    {
        out.push(round_q_to_p(slots[i], params.mat_elem_bit_len));
        i = i + 1;
    }
    out
}

} // verus!
