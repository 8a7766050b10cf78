//! Geometries, widths and folds: what is least, what is greatest, and what divides what.
use vstd::arithmetic::div_mod::*;
use vstd::arithmetic::mul::*;
use vstd::arithmetic::power2::*;
use vstd::prelude::*;

use crate::bits;
use crate::geometry;
use crate::geometry::{CuckooParams, SchemeKind};
use crate::pir_params;
use crate::wire::layout;
use crate::wire::layout::DeltaWireLayout;

verus! {

/// Number of segments of a scheme.
pub open spec fn ways(kind: SchemeKind) -> int {
    if kind is Segmented2ary {
        2
    } else if kind is Segmented3ary {
        3
    } else {
        4
    }
}

/// Rounding a quotient up gives the least number of parts that holds the whole.
pub proof fn law_rounding_up(a: int, b: int, n: int)
    requires
        0 <= a,
        0 < b,
    ensures
        n >= geometry::ceil_div(a, b) <==> n * b >= a,
{
    let c = geometry::ceil_div(a, b);
    geometry::lemma_ceil_div(a, b);
    if n >= c {
        assert(n * b >= a) by (nonlinear_arith)
            requires
                n >= c,
                c * b >= a,
                b > 0,
        ;
    } else {
        assert(n * b < a) by (nonlinear_arith)
            requires
                n <= c - 1,
                (c - 1) * b < a,
                b > 0,
        ;
    }
}

/// A geometry has two, three or four equal segments, as large as the buckets allow; a slot has
/// the least number of cells that holds a fingerprint and a value, and a value the least that
/// holds the value; and a row has the cells of all slots of a bucket.
pub proof fn law_geometry(p: CuckooParams, n: int)
    requires
        p.plaintext_bits >= 1,
    ensures
        p.spec_arity() == ways(p.scheme_kind),
        ways(p.scheme_kind) * p.spec_segment_size() <= p.num_buckets < ways(p.scheme_kind) * (
        p.spec_segment_size() + 1),
        n >= p.spec_cells_per_slot() <==> n * p.plaintext_bits >= p.fingerprint_bits + p.value_bits,
        n >= p.spec_value_size_in_cells() <==> n * p.plaintext_bits >= p.value_bits,
        p.spec_row_width() == p.bucket_size * p.spec_cells_per_slot(),
{
    let d = p.spec_arity() as int;
    law_rounding_up(p.fingerprint_bits + p.value_bits, p.plaintext_bits as int, n);
    law_rounding_up(p.value_bits as int, p.plaintext_bits as int, n);
    lemma_fundamental_div_mod(p.num_buckets as int, d);
    lemma_mod_bound(p.num_buckets as int, d);
    lemma_mul_is_distributive_add(d, p.spec_segment_size() as int, 1);
}

/// A geometry is laid out wherever its rows can be counted in 32 bits, and is valid wherever,
/// besides, its buckets split evenly, cells have at most 62 bits and rows at most `2^31`.
pub proof fn law_geometry_ranges(p: CuckooParams)
    ensures
        p.has_layout() <==> 1 <= p.plaintext_bits < 0xffff_ffff && p.fingerprint_bits
            + p.value_bits <= 0xffff_ffff && p.spec_row_width() <= 0xffff_ffff,
        p.valid() <==> p.has_layout() && p.num_buckets as int % ways(p.scheme_kind) == 0
            && p.plaintext_bits <= 62 && p.spec_row_width() <= 0x8000_0000,
{
}

proof fn lemma_index_width(n: nat, w: nat)
    ensures
        w >= layout::index_width(n) <==> n <= pow2(w),
{
    lemma_pow2_pos(w);
    if n > 0 {
        let x = (n - 1) as nat;
        bits::lemma_bit_length(x);
        if w >= bits::bit_length(x) {
            if w > bits::bit_length(x) {
                lemma_pow2_strictly_increases(bits::bit_length(x), w);
            }
        } else {
            if x < pow2(w) {
                bits::lemma_bit_length_bound(x, w);
            }
        }
    }
}

/// The widths of an encoding are the least: for the buckets, for the cells of a row, and for
/// the deltas, of which there are twice the cells' values less one. Runs bridge gaps as long as
/// the zeros take no more bits than another run.
pub proof fn law_wire_widths(p: CuckooParams, w: nat)
    requires
        p.has_layout(),
    ensures
        ({
            let l = DeltaWireLayout::of(p);
            &&& l.num_buckets == p.num_buckets
            &&& l.segment_size == p.spec_segment_size()
            &&& l.row_width == p.spec_row_width()
            &&& l.plaintext_bits == p.plaintext_bits
            &&& w >= l.bucket_bits <==> p.num_buckets <= pow2(w)
            &&& w >= l.offset_bits <==> p.spec_row_width() <= pow2(w)
            &&& w >= l.delta_bits <==> 2 * pow2(p.plaintext_bits as nat) - 1 <= pow2(w)
            &&& l.max_gap * l.delta_bits <= 2 * l.offset_bits + 1 < (l.max_gap + 1) * l.delta_bits
        }),
{
    let l = DeltaWireLayout::of(p);
    lemma2_to64();
    geometry::lemma_ceil_div(p.fingerprint_bits + p.value_bits, p.plaintext_bits as int);
    assert(p.spec_row_width() >= 0) by (nonlinear_arith)
        requires
            p.spec_row_width() == p.bucket_size * p.spec_cells_per_slot(),
            p.spec_cells_per_slot() >= 0,
    ;
    lemma_index_width(p.num_buckets as nat, w);
    lemma_index_width(p.spec_row_width() as nat, w);
    lemma_index_width(p.num_buckets as nat, 32);
    lemma_index_width(p.spec_row_width() as nat, 32);
    let b = p.plaintext_bits as nat;
    lemma_pow2_unfold(b + 1);
    lemma_pow2_pos(b);
    if w >= b + 1 {
        if w > b + 1 {
            lemma_pow2_strictly_increases(b + 1, w);
        }
    } else if w < b {
        lemma_pow2_strictly_increases(w, b);
    } else {
        assert(w == b);
        lemma_pow2_unfold(b);
        lemma_pow2_pos((b - 1) as nat);
    }
    let c = 2 * l.offset_bits + 1;
    let d = l.delta_bits as int;
    assert(l.delta_bits == p.plaintext_bits + 1);
    lemma_fundamental_div_mod(c, d);
    lemma_mod_bound(c, d);
    lemma_div_pos_is_pos(c, d);
    assert(c / d <= c) by (nonlinear_arith)
        requires
            d * (c / d) <= c,
            d >= 1,
            c / d >= 0,
    ;
    let g = c / d;
    assert(l.max_gap == g);
    assert(g * d == d * g && (g + 1) * d == d * g + d) by (nonlinear_arith);
}

/// A row of a segment has, for each slot of its bucket, the least number of cells that holds a
/// fingerprint and a value.
pub proof fn law_row_cells(
    bucket_size: u32,
    fingerprint_bits: u32,
    value_bits: u32,
    plaintext_bits: u32,
    n: int,
)
    requires
        plaintext_bits > 0,
        bucket_size > 0,
    ensures
        bucket_size * n >= pir_params::row_cells(
            bucket_size,
            fingerprint_bits,
            value_bits,
            plaintext_bits,
        ) <==> n * plaintext_bits >= fingerprint_bits + value_bits,
        pir_params::row_cells(bucket_size, fingerprint_bits, value_bits, plaintext_bits)
            % bucket_size as int == 0,
{
    let c = geometry::ceil_div(fingerprint_bits + value_bits, plaintext_bits as int);
    let b = bucket_size as int;
    law_rounding_up(fingerprint_bits + value_bits, plaintext_bits as int, n);
    lemma_mod_multiples_basic(c, b);
    lemma_mul_is_commutative(c, b);
    assert(b * n >= b * c <==> n >= c) by (nonlinear_arith)
        requires
            b > 0,
    ;
}

/// A fold is the integer nearest to the square root of `n / w`: up to it lie exactly the
/// numbers `m` of which `m - 1/2` squared, times `w`, is at most `n`, and 1.
pub proof fn law_fold_is_nearest(n: int, w: int, k: int, m: int)
    requires
        w > 0,
        pir_params::is_fold(n, w, k),
        m >= 1,
    ensures
        k >= 1,
        m <= k <==> m == 1 || (2 * m - 1) * (2 * m - 1) * w <= 4 * n,
{
    if m <= k {
        if m > 1 {
            assert((2 * m - 1) * (2 * m - 1) <= (2 * k - 1) * (2 * k - 1)) by (nonlinear_arith)
                requires
                    1 <= m <= k,
            ;
            assert((2 * m - 1) * (2 * m - 1) * w <= (2 * k - 1) * (2 * k - 1) * w)
                by (nonlinear_arith)
                requires
                    (2 * m - 1) * (2 * m - 1) <= (2 * k - 1) * (2 * k - 1),
                    w > 0,
            ;
        }
    } else {
        assert((2 * m - 1) * (2 * m - 1) >= (2 * k + 1) * (2 * k + 1)) by (nonlinear_arith)
            requires
                1 <= k < m,
        ;
        assert((2 * m - 1) * (2 * m - 1) * w >= (2 * k + 1) * (2 * k + 1) * w)
            by (nonlinear_arith)
            requires
                (2 * m - 1) * (2 * m - 1) >= (2 * k + 1) * (2 * k + 1),
                w > 0,
        ;
    }
}

/// A width is admitted where its own entry says so, and widths past the entries are not.
pub proof fn law_admitted(admitted: Seq<bool>, w: int)
    ensures
        1 <= w <= admitted.len() ==> pir_params::is_admitted(admitted, w) == admitted[w - 1],
        w < 1 || w > admitted.len() ==> !pir_params::is_admitted(admitted, w),
{
}

} // verus!
