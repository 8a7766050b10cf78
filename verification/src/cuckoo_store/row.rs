//! The database row of a bucket.
use vstd::arithmetic::div_mod::*;
use vstd::arithmetic::power2::*;
use vstd::prelude::*;

use crate::cuckoo_store::model::Cell;
use crate::fingerprint;
use crate::geometry;
use crate::lwe;
use crate::params::FilterParams;

verus! {

/// Elements per slot: those of the fingerprint, then those of the value.
pub open spec fn slot_elems(params: FilterParams) -> int {
    params.spec_fp_elems() + params.row_elems
}

/// Whether rows of `b` slots can be laid out: widths are in range, a value's elements are as
/// many as its bits take, and a row's elements can be counted.
pub open spec fn layout_ok(params: FilterParams, b: int) -> bool {
    &&& lwe::width_ok(params)
    &&& crate::hash::fp_bits_ok(params.fingerprint_bits)
    &&& params.row_elems == geometry::ceil_div(
        params.value_len * 8,
        params.mat_elem_bit_len as int,
    )
    &&& 1 <= b <= u32::MAX
    &&& b * slot_elems(params) <= u32::MAX
}

/// Element `o` of a slot: the fingerprint's chunks, then the value's elements; all zero in an
/// empty slot.
pub open spec fn slot_elem(params: FilterParams, cell: Cell, o: int) -> u32 {
    match cell {
        Some(e) => if o < params.spec_fp_elems() {
            fingerprint::fp_chunk(e.0, params.fingerprint_bits, params.mat_elem_bit_len, o)
        } else {
            lwe::packed(e.1, params)[o - params.spec_fp_elems()]
        },
        None => 0,
    }
}

/// The row of bucket `g`: its slots, one after another.
pub open spec fn bucket_row(params: FilterParams, b: int, cells: Seq<Cell>, g: int) -> Seq<u32> {
    Seq::new(
        (b * slot_elems(params)) as nat,
        |i: int|
            slot_elem(
                params,
                cells[g * b + i / slot_elems(params)],
                i % slot_elems(params),
            ),
    )
}

/// There is at least one element for the fingerprint.
pub proof fn lemma_slot_elems(params: FilterParams, b: int)
    requires
        layout_ok(params, b),
    ensures
        1 <= params.spec_fp_elems() <= slot_elems(params) <= b * slot_elems(params),
        params.spec_fp_elems() * params.mat_elem_bit_len >= params.fingerprint_bits,
        params.row_elems * params.mat_elem_bit_len >= 8 * params.value_len,
{
    let w = params.mat_elem_bit_len as int;
    let f = params.spec_fp_elems();
    geometry::lemma_ceil_div(params.fingerprint_bits as int, w);
    geometry::lemma_ceil_div(params.value_len * 8, w);
    assert(f >= 1) by (nonlinear_arith)
        requires
            f * w >= params.fingerprint_bits,
            params.fingerprint_bits >= 1,
            f >= 0,
    ;
    let n = slot_elems(params);
    assert(n <= b * n) by (nonlinear_arith)
        requires
            b >= 1,
            n >= 0,
    ;
}

/// An empty slot has a zero chunk wherever a zero fingerprint would.
pub proof fn lemma_zero_chunk(params: FilterParams, o: int)
    requires
        lwe::width_ok(params),
        0 <= o,
    ensures
        fingerprint::fp_chunk(0, params.fingerprint_bits, params.mat_elem_bit_len, o) == 0,
{
    let w = params.mat_elem_bit_len as nat;
    lemma_pow2_pos(params.fingerprint_bits as nat);
    lemma_pow2_pos(o as nat * w);
    lemma_pow2_pos(w);
    lemma_small_mod(0, fingerprint::fp_modulus(params.fingerprint_bits) as nat);
    lemma_basic_div(0, pow2(o as nat * w) as int);
    lemma_small_mod(0, pow2(w));
}

/// A slot that holds a pair is read back from the bucket's row: its first elements give the
/// fingerprint, and the rest give the value.
pub proof fn law_row_holds_pair(
    params: FilterParams,
    b: int,
    cells: Seq<Cell>,
    g: int,
    s: int,
    tag: u32,
    value: Seq<u8>,
)
    requires
        layout_ok(params, b),
        0 <= s < b,
        cells[g * b + s] == Some((tag, value)),
        tag < pow2(params.fingerprint_bits as nat),
        value.len() == params.value_len,
    ensures
        ({
            let n = slot_elems(params);
            let f = params.spec_fp_elems();
            let row = bucket_row(params, b, cells, g);
            let fp = row.subrange(s * n, s * n + f);
            let val = row.subrange(s * n + f, s * n + n);
            &&& fingerprint::digits_value(fp, params.mat_elem_bit_len as nat)
                % fingerprint::fp_modulus(params.fingerprint_bits) == tag
            &&& val == lwe::packed(value, params)
            &&& forall|out: Seq<u8>|
                #[trigger] lwe::is_unpacked(val, params, out) ==> out == value
        }),
{
    let n = slot_elems(params);
    let f = params.spec_fp_elems();
    let row = bucket_row(params, b, cells, g);
    lemma_slot_elems(params, b);
    assert(0 <= s * n && (s + 1) * n <= b * n && (s + 1) * n == s * n + n) by (nonlinear_arith)
        requires
            0 <= s,
            s + 1 <= b,
            0 <= n,
    ;
    let fp = row.subrange(s * n, s * n + f);
    let val = row.subrange(s * n + f, s * n + n);
    assert forall|o: int| 0 <= o < n implies #[trigger] row[s * n + o] == slot_elem(
        params,
        Some((tag, value)),
        o,
    ) by {
        lemma_fundamental_div_mod_converse(s * n + o, n, s, o);
    }
    assert forall|i: int| 0 <= i < fp.len() implies #[trigger] fp[i] == fingerprint::fp_chunk(
        tag,
        params.fingerprint_bits,
        params.mat_elem_bit_len,
        i,
    ) by {
        assert(fp[i] == row[s * n + i]);
    }
    fingerprint::law_fp_round_trip(
        tag,
        params.fingerprint_bits,
        params.mat_elem_bit_len,
        fp,
    );
    lemma2_to64();
    lemma_small_mod(tag as nat, fingerprint::fp_modulus(params.fingerprint_bits) as nat);
    assert forall|i: int| 0 <= i < val.len() implies val[i] == lwe::packed(value, params)[i] by {
        assert(val[i] == row[s * n + (f + i)]);
    }
    assert(val =~= lwe::packed(value, params));
    assert forall|out: Seq<u8>| #[trigger] lwe::is_unpacked(val, params, out) implies out
        == value by {
        lwe::law_unpack_pack(value, params, out);
    }
}

/// Every element of a row has the plaintext width.
pub proof fn law_row_in_range(params: FilterParams, b: int, cells: Seq<Cell>, g: int)
    requires
        layout_ok(params, b),
    ensures
        forall|i: int|
            0 <= i < b * slot_elems(params) ==> (#[trigger] bucket_row(params, b, cells, g)[i])
                < pow2(params.mat_elem_bit_len as nat),
{
    let n = slot_elems(params);
    let f = params.spec_fp_elems();
    lemma_slot_elems(params, b);
    lemma_pow2_pos(params.mat_elem_bit_len as nat);
    assert forall|i: int| 0 <= i < b * n implies (#[trigger] bucket_row(params, b, cells, g)[i])
        < pow2(params.mat_elem_bit_len as nat) by {
        let o = i % n;
        lemma_mod_bound(i, n);
        match cells[g * b + i / n] {
            Some(e) => {
                if o < f {
                    fingerprint::law_fp_chunks_in_range(
                        e.0,
                        params.fingerprint_bits,
                        params.mat_elem_bit_len,
                        o,
                    );
                } else {
                    lwe::law_packed_in_range(e.1, params);
                    assert(lwe::packed(e.1, params)[o - f] < pow2(params.mat_elem_bit_len as nat));
                }
            },
            None => {},
        }
    }
}

} // verus!
