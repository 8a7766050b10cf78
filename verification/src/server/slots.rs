//! Slots and the plaintext cells that they are packed into.
use vstd::arithmetic::div_mod::*;
use vstd::arithmetic::power2::*;
use vstd::bits::*;
use vstd::prelude::*;

use crate::bits;
use crate::geometry;
use crate::geometry::CuckooParams;
use crate::lwe;

verus! {

/// What one write did to a slot. An empty slot has fingerprint zero and zero value cells.
#[derive(Debug, PartialEq, Eq)]
pub struct SlotMutation {
    /// Bucket of the slot.
    pub bucket: u32,
    /// Place of the slot in its bucket.
    pub slot: u32,
    /// The fingerprint before.
    pub old_fingerprint: u64,
    /// The fingerprint after.
    pub new_fingerprint: u64,
    /// The value before, in plaintext cells.
    pub old_value_cells: Vec<u32>,
    /// The value after, in plaintext cells.
    pub new_value_cells: Vec<u32>,
}

/// Whether slots can be packed: a cell fits 32 bits and a fingerprint fits 64.
pub open spec fn packable(params: CuckooParams) -> bool {
    &&& 1 <= params.plaintext_bits <= 32
    &&& params.fingerprint_bits <= 64
    &&& params.fingerprint_bits + params.value_bits <= u32::MAX
}

/// The bits of a slot: those of the fingerprint, then those of the value.
pub open spec fn slot_bits(params: CuckooParams, fingerprint: u64, value: Seq<u32>) -> Seq<bool> {
    bits::field(fingerprint as nat, params.fingerprint_bits as nat) + Seq::new(
        params.value_bits as nat,
        |i: int| lwe::payload_bit(value, params.plaintext_bits as int, i),
    )
}

/// Cell `c` of a slot.
pub open spec fn slot_cell(params: CuckooParams, fingerprint: u64, value: Seq<u32>, c: int) -> nat {
    bits::val(
        lwe::chunk(
            slot_bits(params, fingerprint, value),
            c * params.plaintext_bits,
            params.plaintext_bits as nat,
        ),
    )
}

/// A cell has the plaintext width.
pub proof fn lemma_slot_cell_bound(
    params: CuckooParams,
    fingerprint: u64,
    value: Seq<u32>,
    c: int,
)
    requires
        packable(params),
    ensures
        slot_cell(params, fingerprint, value, c) < pow2(params.plaintext_bits as nat),
        slot_cell(params, fingerprint, value, c) <= u32::MAX,
{
    bits::lemma_val_bound(
        lwe::chunk(
            slot_bits(params, fingerprint, value),
            c * params.plaintext_bits,
            params.plaintext_bits as nat,
        ),
    );
    lemma2_to64();
    if params.plaintext_bits < 32 {
        lemma_pow2_strictly_increases(params.plaintext_bits as nat, 32);
    }
}

/// Bit `at` of a slot.
fn slot_bit(params: &CuckooParams, fingerprint: u64, value: &[u32], at: u64) -> (b: bool)
    requires
        packable(*params),
        value@.len() == params.spec_value_size_in_cells(),
    ensures
        b == lwe::bit_at(slot_bits(*params, fingerprint, value@), at as int),
{
    let f: u64 = params.fingerprint_bits as u64;
    if at < f {
        proof {
            lemma_u64_shr_is_div(fingerprint, at);
            let x = fingerprint >> at;
            assert(x & 1 == x % 2) by (bit_vector);
        }
        (fingerprint >> at) & 1 == 1
    } else if at < f + params.value_bits as u64 {
        let w: u64 = params.plaintext_bits as u64;
        let i: u64 = at - f;
        proof {
            geometry::lemma_ceil_div(params.value_bits as int, w as int);
            lemma_fundamental_div_mod(i as int, w as int);
            lemma_mod_bound(i as int, w as int);
            let n = params.spec_value_size_in_cells();
            assert(i as int / (w as int) < n) by (nonlinear_arith)
                requires
                    w * (i as int / (w as int)) <= i,
                    i < n * w,
                    w > 0,
            ;
            assert(value.len() == value@.len());
        }
        let cell: u32 = value[(i / w) as usize];
        let k: u32 = (i % w) as u32;
        proof {
            lemma_u32_shr_is_div(cell, k);
            let x = cell >> k;
            assert(x & 1 == x % 2) by (bit_vector);
        }
        (cell >> k) & 1 == 1
    } else {
        false
    }
}

/// Cell `c` of a slot, as a number.
fn pack_cell(params: &CuckooParams, fingerprint: u64, value: &[u32], c: u32) -> (x: u32)
    requires
        packable(*params),
        value@.len() == params.spec_value_size_in_cells(),
    ensures
        x == slot_cell(*params, fingerprint, value@, c as int),
{
    let width: u32 = params.plaintext_bits;
    let ghost s = slot_bits(*params, fingerprint, value@);
    proof {
        assert(c * width <= u32::MAX * 32) by (nonlinear_arith)
            requires
                0 <= c <= u32::MAX,
                0 <= width <= 32,
        ;
    }
    let base: u64 = (c as u64) * (width as u64);
    let ghost all = lwe::chunk(s, base as int, width as nat);
    let mut x: u32 = 0;
    let mut k: u32 = 0;
    proof {
        lemma2_to64();
        assert(all.take(0) =~= Seq::<bool>::empty());
    }
    while k < width
        invariant
            k <= width <= 32,
            width == params.plaintext_bits,
            packable(*params),
            value@.len() == params.spec_value_size_in_cells(),
            s == slot_bits(*params, fingerprint, value@),
            all == lwe::chunk(s, base as int, width as nat),
            base <= u32::MAX * 32,
            x == bits::val(all.take(k as int)),
            x < pow2(k as nat),
        decreases width - k,
    {
        let bit: bool = slot_bit(params, fingerprint, value, base + k as u64);
        proof {
            assert(all.take(k as int + 1) =~= all.take(k as int).push(all[k as int]));
            bits::lemma_val_push(all.take(k as int), all[k as int]);
            bits::lemma_val_bound(all.take(k as int + 1));
            lemma2_to64();
            lemma_pow2_strictly_increases(k as nat, 32);
            lemma_pow2_unfold(k as nat + 1);
            if k + 1 < 32 {
                lemma_pow2_strictly_increases(k as nat + 1, 32);
            }
            lemma_u32_shl_is_mul(1u32, k);
        }
        if bit {
            x = x + (1u32 << k);
        }
        k = k + 1;
    }
    proof {
        assert(all.take(width as int) =~= all);
    }
    x
}

/// Packs a slot into its cells: the bits of the fingerprint, then those of the value, least
/// significant bit first.
pub fn pack_slot_cells(params: &CuckooParams, fingerprint: u64, value: &[u32], out: &mut [u32])
    requires
        packable(*params),
        value@.len() == params.spec_value_size_in_cells(),
        old(out)@.len() == params.spec_cells_per_slot(),
    ensures
        final(out)@ == Seq::new(
            params.spec_cells_per_slot() as nat,
            |c: int| slot_cell(*params, fingerprint, value@, c) as u32,
        ),
{
    let n: u32 = params.cells_per_slot();
    let mut c: u32 = 0;
    assert(out.len() == out@.len());
    while c < n
        invariant
            c <= n == out@.len() == params.spec_cells_per_slot(),
            n <= usize::MAX,
            packable(*params),
            value@.len() == params.spec_value_size_in_cells(),
            forall|i: int|
                0 <= i < c ==> #[trigger] out@[i] == slot_cell(*params, fingerprint, value@, i),
        decreases n - c,
    {
        out[c as usize] = pack_cell(params, fingerprint, value, c);
        c = c + 1;
    }
    assert(out@ =~= Seq::new(
        n as nat,
        |i: int| slot_cell(*params, fingerprint, value@, i) as u32,
    ));
}

/// The cells determine the slot: equal cells come from fingerprints that agree below their
/// width, and from values that agree in each of their bits.
pub proof fn law_slot_packing_injective(
    params: CuckooParams,
    f: u64,
    v: Seq<u32>,
    g: u64,
    w: Seq<u32>,
)
    requires
        packable(params),
        forall|c: int|
            0 <= c < params.spec_cells_per_slot() ==> #[trigger] slot_cell(params, f, v, c)
                == slot_cell(params, g, w, c),
    ensures
        f as nat % pow2(params.fingerprint_bits as nat) == g as nat % pow2(
            params.fingerprint_bits as nat,
        ),
        forall|i: int|
            0 <= i < params.value_bits ==> #[trigger] lwe::payload_bit(
                v,
                params.plaintext_bits as int,
                i,
            ) == lwe::payload_bit(w, params.plaintext_bits as int, i),
{
    let width = params.plaintext_bits as int;
    let a = slot_bits(params, f, v);
    let b = slot_bits(params, g, w);
    let n = params.fingerprint_bits + params.value_bits;
    assert forall|i: int| 0 <= i < n implies a[i] == b[i] by {
        let c = i / width;
        let k = i % width;
        lemma_fundamental_div_mod(i, width);
        lemma_mod_bound(i, width);
        lemma_div_pos_is_pos(i, width);
        geometry::lemma_ceil_div(n, width);
        assert(c < params.spec_cells_per_slot()) by (nonlinear_arith)
            requires
                width * c <= i < n,
                n <= params.spec_cells_per_slot() * width,
                width > 0,
        ;
        let x = lwe::chunk(a, c * width, width as nat);
        let y = lwe::chunk(b, c * width, width as nat);
        assert(slot_cell(params, f, v, c) == slot_cell(params, g, w, c));
        bits::lemma_field_val(x);
        bits::lemma_field_val(y);
        assert(c * width == width * c) by (nonlinear_arith);
        assert(x[k] == y[k]);
    }
    assert(a =~= b);
    bits::lemma_val_field(f as nat, params.fingerprint_bits as nat);
    bits::lemma_val_field(g as nat, params.fingerprint_bits as nat);
    assert(a.take(params.fingerprint_bits as int) =~= bits::field(
        f as nat,
        params.fingerprint_bits as nat,
    ));
    assert(b.take(params.fingerprint_bits as int) =~= bits::field(
        g as nat,
        params.fingerprint_bits as nat,
    ));
    assert forall|i: int| 0 <= i < params.value_bits implies #[trigger] lwe::payload_bit(
        v,
        width,
        i,
    ) == lwe::payload_bit(w, width, i) by {
        assert(a[params.fingerprint_bits + i] == lwe::payload_bit(v, width, i));
        assert(b[params.fingerprint_bits + i] == lwe::payload_bit(w, width, i));
    }
}

} // verus!
