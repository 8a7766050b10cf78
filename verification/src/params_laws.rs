//! What sizes and widths recommended parameters have, and when there are none.
use vstd::arithmetic::div_mod::*;
use vstd::arithmetic::power2::*;
use vstd::prelude::*;

use crate::geometry;
use crate::params;
use crate::params::{Arity, FilterParams, ParamError};
use crate::text;

verus! {

/// Whether the arity has segments.
pub open spec fn in_segments(arity: Arity) -> bool {
    arity is Segmented2 || arity is Segmented3 || arity is Segmented4
}

/// Number of candidates of a keyword, and of segments where there are any.
pub open spec fn ways(arity: Arity) -> int {
    if arity is Segmented2 || arity is Standard2 {
        2
    } else if arity is Segmented3 || arity is Standard3 {
        3
    } else {
        4
    }
}

/// Share of the slots, in hundredths, that is filled at most.
pub open spec fn load(arity: Arity) -> int {
    if arity is Segmented2 || arity is Standard2 {
        91
    } else if arity is Segmented3 || arity is Standard3 {
        94
    } else {
        95
    }
}

/// Segments of `2^k` buckets with four slots each hold the items at the target load, and
/// smaller ones do not.
pub open spec fn least_segment(percent: int, num_items: int, k: nat) -> bool {
    &&& 4 * pow2(k) * percent >= 100 * num_items
    &&& k > 0 ==> 4 * pow2((k - 1) as nat) * percent < 100 * num_items
}

/// Elements of `w` bits keep the noise of a segment of `2^k` buckets below the modulus.
pub open spec fn keeps_noise_low(k: nat, w: int) -> bool {
    2 * pow2(k) * pow2((2 * w) as nat) < 0x1_0000_0000
}

/// The widest elements, from 4 to 14 bits, that keep the noise low.
pub open spec fn widest(k: nat, w: int) -> bool {
    &&& 4 <= w <= 14
    &&& keeps_noise_low(k, w)
    &&& w == 14 || !keeps_noise_low(k, w + 1)
}

proof fn lemma_noise_exponent(k: nat, w: int)
    requires
        w >= 0,
    ensures
        keeps_noise_low(k, w) <==> k + 2 * w <= 30,
{
    let e = k + (2 * w) as nat;
    lemma_pow2_adds(k, (2 * w) as nat);
    lemma_pow2_unfold(e + 1);
    assert(2 * pow2(k) * pow2((2 * w) as nat) == 2 * (pow2(k) * pow2((2 * w) as nat)))
        by (nonlinear_arith);
    lemma2_to64();
    if e + 1 < 32 {
        lemma_pow2_strictly_increases(e + 1, 32);
    } else if e + 1 > 32 {
        lemma_pow2_strictly_increases(32, e + 1);
    }
}

proof fn lemma_least_segment(arity: Arity, num_items: u32, k: nat)
    requires
        in_segments(arity),
        num_items > 0,
    ensures
        least_segment(load(arity), num_items as int, k) <==> k == params::seg_log(
            arity,
            num_items as int,
        ),
{
    let percent = load(arity);
    let slots = params::slots_needed(arity, num_items as int);
    let buckets = geometry::ceil_div(slots, 4);
    let log = params::seg_log(arity, num_items as int);
    geometry::lemma_ceil_div(num_items * 100, percent);
    geometry::lemma_ceil_div(slots, 4);
    params::lemma_log2_up(buckets as nat);
    lemma_holds_items(percent, num_items as int, log);
    if log > 0 {
        lemma_holds_items(percent, num_items as int, (log - 1) as nat);
        if pow2((log - 1) as nat) >= buckets {
            assert(log <= (log - 1) as nat);
        }
    }
    assert(least_segment(percent, num_items as int, log));
    if least_segment(percent, num_items as int, k) {
        lemma_holds_items(percent, num_items as int, k);
        assert(log <= k);
        if log < k {
            if log < k - 1 {
                lemma_pow2_strictly_increases(log, (k - 1) as nat);
            }
            assert(4 * pow2((k - 1) as nat) * percent >= 4 * pow2(log) * percent)
                by (nonlinear_arith)
                requires
                    pow2((k - 1) as nat) >= pow2(log),
                    percent > 0,
            ;
        }
    }
}

proof fn lemma_holds_items(percent: int, num_items: int, k: nat)
    requires
        percent > 0,
        num_items > 0,
    ensures
        4 * pow2(k) * percent >= 100 * num_items <==> pow2(k) >= geometry::ceil_div(
            geometry::ceil_div(num_items * 100, percent),
            4,
        ),
{
    let slots = geometry::ceil_div(num_items * 100, percent);
    geometry::lemma_ceil_div(num_items * 100, percent);
    geometry::lemma_ceil_div(slots, 4);
    let p = pow2(k) as int;
    if 4 * p * percent >= 100 * num_items {
        assert(4 * p > slots - 1) by (nonlinear_arith)
            requires
                4 * p * percent >= 100 * num_items,
                (slots - 1) * percent < num_items * 100,
                percent > 0,
        ;
    } else {
        assert(4 * p < slots) by (nonlinear_arith)
            requires
                4 * p * percent < 100 * num_items,
                slots * percent >= num_items * 100,
                percent > 0,
        ;
    }
}

/// There is always one least segment size, and where elements of 4 bits keep its noise low,
/// there is a widest element.
pub proof fn law_sizes_exist(arity: Arity, num_items: u32)
    requires
        in_segments(arity),
        num_items > 0,
    ensures
        exists|k: nat| #[trigger]
            least_segment(load(arity), num_items as int, k) && (keeps_noise_low(k, 4) ==> exists|
                w: int,
            | #[trigger]
                widest(k, w)),
        forall|k: nat, l: nat| #[trigger]
            least_segment(load(arity), num_items as int, k) && #[trigger] least_segment(
                load(arity),
                num_items as int,
                l,
            ) ==> k == l,
{
    let percent = load(arity);
    let k = params::seg_log(arity, num_items as int);
    lemma_least_segment(arity, num_items, k);
    lemma_noise_exponent(k, 4);
    if keeps_noise_low(k, 4) {
        let w = params::elem_bits(k);
        lemma_noise_exponent(k, w);
        lemma_noise_exponent(k, w + 1);
        assert(widest(k, w));
    }
    assert forall|i: nat, l: nat| #[trigger]
        least_segment(percent, num_items as int, i) && #[trigger] least_segment(
            percent,
            num_items as int,
            l,
        ) implies i == l by {
        lemma_least_segment(arity, num_items, i);
        lemma_least_segment(arity, num_items, l);
    }
}

/// Items are too many only where even elements of 4 bits do not keep the noise of the segments
/// that they take below the modulus, or where the buckets cannot be counted in 32 bits.
pub proof fn law_too_many_items(arity: Arity, num_items: u32, value_len: u32, k: nat)
    requires
        in_segments(arity),
        num_items > 0,
        value_len > 0,
        least_segment(load(arity), num_items as int, k),
    ensures
        params::recommendation(arity, num_items, value_len) == Err::<FilterParams, ParamError>(
            ParamError::TooManyItems,
        ) <==> ways(arity) * pow2(k) > 0xffff_ffff || !keeps_noise_low(k, 4),
{
    lemma_least_segment(arity, num_items, k);
    lemma_noise_exponent(k, 4);
    vstd::arithmetic::mul::lemma_mul_is_commutative(ways(arity), pow2(k) as int);
}

/// A value is too large only where its bits fill more elements of the chosen width than can
/// be counted in 32 bits.
pub proof fn law_value_too_large(arity: Arity, num_items: u32, value_len: u32, k: nat, w: int)
    requires
        in_segments(arity),
        num_items > 0,
        value_len > 0,
        least_segment(load(arity), num_items as int, k),
        ways(arity) * pow2(k) <= 0xffff_ffff,
        widest(k, w),
    ensures
        params::recommendation(arity, num_items, value_len) == Err::<FilterParams, ParamError>(
            ParamError::ValueTooLarge,
        ) <==> 8 * value_len > w * 0xffff_ffff,
{
    lemma_chosen(arity, num_items, value_len, k, w);
    let n = geometry::ceil_div(value_len * 8, w);
    geometry::lemma_ceil_div(value_len * 8, w);
    lemma_count(value_len * 8, w, n);
}

proof fn lemma_count(bits: int, w: int, n: int)
    requires
        w > 0,
        n * w >= bits,
        (n - 1) * w < bits,
    ensures
        n > 0xffff_ffff <==> bits > w * 0xffff_ffff,
{
    if n > 0xffff_ffff {
        assert(bits > w * 0xffff_ffff) by (nonlinear_arith)
            requires
                n - 1 >= 0xffff_ffff,
                (n - 1) * w < bits,
                w > 0,
        ;
    } else {
        assert(bits <= w * 0xffff_ffff) by (nonlinear_arith)
            requires
                n <= 0xffff_ffff,
                n * w >= bits,
                w > 0,
        ;
    }
}

proof fn lemma_chosen(arity: Arity, num_items: u32, value_len: u32, k: nat, w: int)
    requires
        in_segments(arity),
        num_items > 0,
        least_segment(load(arity), num_items as int, k),
        widest(k, w),
    ensures
        k == params::seg_log(arity, num_items as int),
        k <= 22,
        w == params::elem_bits(k),
        pow2(k) * arity.spec_degree() == ways(arity) * pow2(k),
{
    lemma_least_segment(arity, num_items, k);
    lemma_noise_exponent(k, w);
    lemma_noise_exponent(k, w + 1);
    vstd::arithmetic::mul::lemma_mul_is_commutative(ways(arity), pow2(k) as int);
}

/// In all other cases there are parameters: of the given arity and value length, with
/// fingerprints of 12 bits, as many segments as the arity has, each the least that holds the
/// items, the widest elements that keep the noise low, and as many of them per value as its
/// bits take and no more.
pub proof fn law_otherwise_recommended(
    arity: Arity,
    num_items: u32,
    value_len: u32,
    k: nat,
    w: int,
)
    requires
        in_segments(arity),
        num_items > 0,
        value_len > 0,
        least_segment(load(arity), num_items as int, k),
        ways(arity) * pow2(k) <= 0xffff_ffff,
        widest(k, w),
        8 * value_len <= w * 0xffff_ffff,
    ensures
        params::recommendation(arity, num_items, value_len) matches Ok(p) && {
            &&& p.arity == arity
            &&& p.num_buckets == ways(arity) * pow2(k)
            &&& p.fingerprint_bits == 12
            &&& p.mat_elem_bit_len == w
            &&& p.value_len == value_len
            &&& w * (p.row_elems - 1) < 8 * value_len <= w * p.row_elems
        },
{
    lemma_chosen(arity, num_items, value_len, k, w);
    let n = geometry::ceil_div(value_len * 8, w);
    geometry::lemma_ceil_div(value_len * 8, w);
    lemma_count(value_len * 8, w, n);
    vstd::arithmetic::mul::lemma_mul_is_commutative(w, n);
    vstd::arithmetic::mul::lemma_mul_is_commutative(w, n - 1);
}

/// Arities without segments, empty databases and empty values are refused, in this order, and
/// nothing else is refused for these reasons.
pub proof fn law_refused_outright(arity: Arity, num_items: u32, value_len: u32)
    ensures
        ({
            let r = params::recommendation(arity, num_items, value_len);
            &&& r == Err::<FilterParams, ParamError>(ParamError::ArityNotSupportedForPir)
                <==> arity is Standard2 || arity is Standard3 || arity is Standard4
            &&& r == Err::<FilterParams, ParamError>(ParamError::EmptyDatabase) <==> num_items == 0
                && in_segments(arity)
            &&& r == Err::<FilterParams, ParamError>(ParamError::EmptyValue) <==> value_len == 0
                && num_items > 0 && in_segments(arity)
        }),
{
}

/// What an arity says: its number of candidates, whether they lie in segments, and the load.
pub proof fn law_arity(arity: Arity)
    ensures
        arity.segmented() <==> in_segments(arity),
        arity.spec_degree() == ways(arity),
        arity.load_percent() == load(arity),
{
}

/// The segments are equal and as large as the buckets allow, and a fingerprint takes as many
/// elements as its bits fill and no more; a row has four slots.
pub proof fn law_row_shape(p: FilterParams)
    requires
        p.mat_elem_bit_len > 0,
    ensures
        p.arity.spec_degree() * p.spec_seg() <= p.num_buckets < p.arity.spec_degree() * (
        p.spec_seg() + 1),
        p.mat_elem_bit_len * (p.spec_fp_elems() - 1) < p.fingerprint_bits <= p.mat_elem_bit_len
            * p.spec_fp_elems(),
        p.spec_row_elems_bucket() == 4 * p.spec_fp_elems() + 4 * p.row_elems,
{
    let d = p.arity.spec_degree() as int;
    let w = p.mat_elem_bit_len as int;
    let f = p.spec_fp_elems();
    lemma_fundamental_div_mod(p.num_buckets as int, d);
    lemma_mod_bound(p.num_buckets as int, d);
    vstd::arithmetic::mul::lemma_mul_is_distributive_add(d, p.spec_seg() as int, 1);
    geometry::lemma_ceil_div(p.fingerprint_bits as int, w);
    vstd::arithmetic::mul::lemma_mul_is_commutative(w, f);
    vstd::arithmetic::mul::lemma_mul_is_commutative(w, f - 1);
}

/// By number of items, elements lose one bit whenever the items grow fourfold: up to two items
/// leave 14 bits, `4^(14 - w)` items leave `w` bits, and no number of items leaves fewer than
/// four.
pub proof fn law_width_by_items(num_items: int)
    requires
        num_items >= 0,
    ensures
        ({
            let w = params::elem_bits_by_items(num_items);
            &&& 4 <= w <= 14
            &&& num_items <= 2 <==> w == 14
            &&& 2 < num_items && w > 4 ==> num_items <= pow2((2 * (14 - w)) as nat)
            &&& w < 13 ==> num_items > pow2((2 * (13 - w)) as nat)
        }),
{
    lemma2_to64();
}

/// Parameters are within the budget where twice the buckets of a segment times the square of
/// the cells' modulus stay below the ciphertext modulus.
pub proof fn law_budget(p: FilterParams)
    ensures
        p.within_budget() <==> 2 * p.spec_seg() * pow2((2 * p.mat_elem_bit_len) as nat)
            < 0x1_0000_0000,
{
    let b = p.mat_elem_bit_len as nat;
    lemma_pow2_adds(b, b);
}

/// The name of an arity says whether it has segments and how many candidates a keyword has.
pub proof fn law_arity_name(arity: Arity)
    ensures
        arity.label() == (if in_segments(arity) {
            "segmented-"@
        } else {
            "standard-"@
        }) + text::decimal(ways(arity) as nat) + "ary"@,
{
    reveal_strlit("segmented-");
    reveal_strlit("standard-");
    reveal_strlit("ary");
    reveal_strlit("standard-2ary");
    reveal_strlit("segmented-2ary");
    reveal_strlit("standard-3ary");
    reveal_strlit("segmented-3ary");
    reveal_strlit("standard-4ary");
    reveal_strlit("segmented-4ary");
    let name = (if in_segments(arity) {
        "segmented-"@
    } else {
        "standard-"@
    }) + text::decimal(ways(arity) as nat) + "ary"@;
    assert(text::decimal(2) =~= seq!['2']);
    assert(text::decimal(3) =~= seq!['3']);
    assert(text::decimal(4) =~= seq!['4']);
    assert(arity.label() =~= name);
}

} // verus!
