//! LWE parameters, filter arity and the layout of database rows.
use vstd::arithmetic::power2::*;
use vstd::prelude::*;

use crate::backend::frodo::scaling;
use crate::bits;
use crate::geometry;

verus! {

/// LWE dimension: the length of a secret.
pub const LWE_DIMENSION: usize = 1774;

/// Bits of the ciphertext modulus.
pub const CIPHERTEXT_MODULUS_BITS: u32 = 32;

/// Length of the seed that expands the public matrices.
pub const SEED_LEN: usize = 32;

/// Least width of a plaintext element.
pub const MIN_MAT_ELEM_BIT_LEN: u32 = 4;

/// Greatest width of a plaintext element.
pub const MAX_MAT_ELEM_BIT_LEN: u32 = 14;

/// Fingerprint width.
pub const DEFAULT_FP_BITS: u32 = 12;

/// Slots per bucket.
pub const DEFAULT_SLOTS_PER_BUCKET: u32 = 4;

// ---------------------------------------------------------------- arity
/// How many candidate buckets a keyword maps to, and whether each lies in a segment of its
/// own.
#[derive(Debug, Clone, Copy, PartialEq, Eq, Hash, Structural)]
pub enum Arity {
    /// Two candidates anywhere.
    Standard2,
    /// Two candidates, one per half.
    Segmented2,
    /// Three candidates anywhere.
    Standard3,
    /// Three candidates, one per third.
    Segmented3,
    /// Four candidates anywhere.
    Standard4,
    /// Four candidates, one per quarter.
    Segmented4,
}

impl Arity {
    /// Number of candidate buckets.
    pub open spec fn spec_degree(self) -> u32 {
        match self {
            Arity::Standard2 | Arity::Segmented2 => 2,
            Arity::Standard3 | Arity::Segmented3 => 3,
            Arity::Standard4 | Arity::Segmented4 => 4,
        }
    }

    /// Whether each candidate lies in a segment of its own.
    pub open spec fn segmented(self) -> bool {
        self is Segmented2 || self is Segmented3 || self is Segmented4
    }

    /// Share of the slots, in hundredths, that are filled when the map is sized.
    pub open spec fn load_percent(self) -> int {
        if self.spec_degree() == 2 {
            91
        } else if self.spec_degree() == 3 {
            94
        } else {
            95
        }
    }

    /// Name of the arity.
    pub open spec fn label(self) -> Seq<char> {
        match self {
            Arity::Standard2 => "standard-2ary"@,
            Arity::Segmented2 => "segmented-2ary"@,
            Arity::Standard3 => "standard-3ary"@,
            Arity::Segmented3 => "segmented-3ary"@,
            Arity::Standard4 => "standard-4ary"@,
            Arity::Segmented4 => "segmented-4ary"@,
        }
    }

    /// Number of candidate buckets: 2, 3 or 4.
    pub fn degree(self) -> (d: u32)
        ensures
            d == self.spec_degree(),
    {
        match self {
            Arity::Standard2 => 2,
            Arity::Segmented2 => 2,
            Arity::Standard3 => 3,
            Arity::Segmented3 => 3,
            Arity::Standard4 => 4,
            Arity::Segmented4 => 4,
        }
    }

    /// Whether the candidates lie in segments of their own.
    pub fn is_segmented(self) -> (b: bool)
        ensures
            b == self.segmented(),
    {
        match self {
            Arity::Segmented2 => true,
            Arity::Segmented3 => true,
            Arity::Segmented4 => true,
            _ => false,
        }
    }

    /// Target load of the cuckoo map in hundredths, at four slots per bucket.
    pub fn cuckoo_load_percent(self) -> (n: u64)
        ensures
            n == self.load_percent(),
    {
        match self.degree() {
            2 => 91,
            3 => 94,
            _ => 95,
        }
    }

    /// Name of the arity.
    pub fn name(self) -> (s: &'static str)
        ensures
            s@ == self.label(),
    {
        match self {
            Arity::Standard2 => "standard-2ary",
            Arity::Segmented2 => "segmented-2ary",
            Arity::Standard3 => "standard-3ary",
            Arity::Segmented3 => "segmented-3ary",
            Arity::Standard4 => "standard-4ary",
            Arity::Segmented4 => "segmented-4ary",
        }
    }
}

impl Default for Arity {
    fn default() -> (a: Self)
        ensures
            a == Arity::Segmented4,
    {
        Arity::Segmented4
    }
}

// ---------------------------------------------------------------- errors
/// Why parameters cannot be chosen.
#[derive(Debug, Clone, Copy, PartialEq, Eq, Structural)]
pub enum ParamError {
    /// There are no items.
    EmptyDatabase,
    /// Values are empty.
    EmptyValue,
    /// A value takes too many elements.
    ValueTooLarge,
    /// There are too many items.
    TooManyItems,
    /// The arity is not segmented.
    ArityNotSupportedForPir,
}

impl ParamError {
    /// The text of the error.
    pub open spec fn text(self) -> Seq<char> {
        match self {
            ParamError::EmptyDatabase => "database is empty"@,
            ParamError::EmptyValue => "value_len must be non-zero"@,
            ParamError::ValueTooLarge => "value_len too large for any supported row width"@,
            ParamError::TooManyItems => "num_items exceeds the supported maximum"@,
            ParamError::ArityNotSupportedForPir =>
                "arity not supported by the per-segment PIR (use Segmented2/3/4)"@,
        }
    }

    /// The text of the error.
    pub fn message(&self) -> (s: &'static str)
        ensures
            s@ == self.text(),
    {
        match self {
            ParamError::EmptyDatabase => "database is empty",
            ParamError::EmptyValue => "value_len must be non-zero",
            ParamError::ValueTooLarge => "value_len too large for any supported row width",
            ParamError::TooManyItems => "num_items exceeds the supported maximum",
            ParamError::ArityNotSupportedForPir =>
                "arity not supported by the per-segment PIR (use Segmented2/3/4)",
        }
    }
}

// ---------------------------------------------------------------- sizing
/// The exponent of the least power of two that is at least `x`.
pub open spec fn log2_up(x: nat) -> nat {
    if x <= 1 {
        0
    } else {
        bits::bit_length((x - 1) as nat)
    }
}

/// `2^log2_up(x)` is the least power of two that is at least `x`.
pub proof fn lemma_log2_up(x: nat)
    ensures
        pow2(log2_up(x)) >= x,
        forall|k: nat| #[trigger] pow2(k) >= x ==> log2_up(x) <= k,
{
    lemma2_to64();
    if x > 1 {
        let n = (x - 1) as nat;
        bits::lemma_bit_length(n);
        assert forall|k: nat| #[trigger] pow2(k) >= x implies log2_up(x) <= k by {
            bits::lemma_bit_length_bound(n, k);
        }
    }
}

/// The least power of two that is at least `x`.
pub fn next_power_of_2_u64(x: u64) -> (p: u64)
    requires
        x <= 0x8000_0000_0000_0000,
    ensures
        p == pow2(log2_up(x as nat)),
        p >= x,
        forall|k: nat| #[trigger] pow2(k) >= x ==> p <= pow2(k),
{
    proof {
        lemma_log2_up(x as nat);
        lemma2_to64();
        lemma2_to64_rest();
        assert forall|k: nat| #[trigger] pow2(k) >= x implies pow2(log2_up(x as nat)) <= pow2(k) by {
            if log2_up(x as nat) < k {
                lemma_pow2_strictly_increases(log2_up(x as nat), k);
            }
        }
    }
    if x <= 1 {
        return 1;
    }
    let shift: u32 = bits::bitlen(x - 1);
    proof {
        bits::lemma_bit_length_bound((x - 1) as nat, 63);
        if shift < 63 {
            lemma_pow2_strictly_increases(shift as nat, 63);
        }
        vstd::bits::lemma_u64_shl_is_mul(1, shift as u64);
    }
    1u64 << shift
}

/// Slots that the given number of items takes at the target load.
pub open spec fn slots_needed(arity: Arity, num_items: int) -> int {
    geometry::ceil_div(num_items * 100, arity.load_percent())
}

/// Exponent of the segment size: the least power of two that holds a bucket for every four
/// slots.
pub open spec fn seg_log(arity: Arity, num_items: int) -> nat {
    log2_up(geometry::ceil_div(slots_needed(arity, num_items), 4) as nat)
}

/// Width of a plaintext element for segments of `2^log` buckets: half of what is left of 30
/// bits, but at least 4 and at most 14.
pub open spec fn elem_bits(log: nat) -> int {
    let budget = if log >= 30 {
        0
    } else {
        (30 - log) / 2
    };
    if budget < 4 {
        4
    } else if budget > 14 {
        14
    } else {
        budget
    }
}

/// Static parameters of the encoding: filter shape and row layout.
#[derive(Debug, Clone, Copy, PartialEq, Eq, Structural)]
pub struct FilterParams {
    /// Index scheme.
    pub arity: Arity,
    /// Buckets over all segments.
    pub num_buckets: u32,
    /// Fingerprint bits per item.
    pub fingerprint_bits: u32,
    /// Elements per value.
    pub row_elems: u32,
    /// Bits per plaintext element.
    pub mat_elem_bit_len: u32,
    /// Length of a value in bytes.
    pub value_len: u32,
}

/// Exponent of the largest segment in which elements of the least width keep the noise below
/// the modulus.
pub const MAX_SEGMENT_LOG: u32 = 22;

/// Buckets of the largest such segment.
pub const MAX_SEGMENT: u64 = 4_194_304;

/// What [`FilterParams::recommended`] returns.
pub open spec fn recommendation(arity: Arity, num_items: u32, value_len: u32) -> Result<
    FilterParams,
    ParamError,
> {
    let log = seg_log(arity, num_items as int);
    let bits = elem_bits(log);
    let elems = geometry::ceil_div(value_len * 8, bits);
    if !arity.segmented() {
        Err(ParamError::ArityNotSupportedForPir)
    } else if num_items == 0 {
        Err(ParamError::EmptyDatabase)
    } else if value_len == 0 {
        Err(ParamError::EmptyValue)
    } else if pow2(log) * arity.spec_degree() > u32::MAX || log > MAX_SEGMENT_LOG {
        Err(ParamError::TooManyItems)
    } else if elems > u32::MAX {
        Err(ParamError::ValueTooLarge)
    } else {
        Ok(
            FilterParams {
                arity,
                num_buckets: (pow2(log) * arity.spec_degree()) as u32,
                fingerprint_bits: DEFAULT_FP_BITS,
                row_elems: elems as u32,
                mat_elem_bit_len: bits as u32,
                value_len,
            },
        )
    }
}

impl FilterParams {
    /// Buckets per segment.
    pub open spec fn spec_seg(self) -> u32 {
        self.num_buckets / self.arity.spec_degree()
    }

    /// Elements per fingerprint.
    pub open spec fn spec_fp_elems(self) -> int {
        geometry::ceil_div(self.fingerprint_bits as int, self.mat_elem_bit_len as int)
    }

    /// Elements per bucket row.
    pub open spec fn spec_row_elems_bucket(self) -> int {
        4 * (self.spec_fp_elems() + self.row_elems)
    }

    /// The noise of a segment stays below the modulus: `2 * seg * P^2 < 2^32`, where `P` is the
    /// plaintext modulus.
    pub open spec fn within_budget(self) -> bool {
        2 * self.spec_seg() * (pow2(self.mat_elem_bit_len as nat) * pow2(
            self.mat_elem_bit_len as nat,
        )) < 0x1_0000_0000
    }

    /// Parameters for `num_items` pairs with values of `value_len` bytes: segments are
    /// powers of two that keep the load below its target, elements are as wide as the
    /// noise allows, and every value fits its row. Items that take segments in which no
    /// width keeps the noise below the modulus are too many.
    pub fn recommended(arity: Arity, num_items: u32, value_len: u32) -> (r: Result<
        Self,
        ParamError,
    >)
        ensures
            r == recommendation(arity, num_items, value_len),
            r matches Ok(p) ==> p.within_budget(),
    {
        proof {
            law_recommended_noise(arity, num_items, value_len);
        }
        if !arity.is_segmented() {
            return Err(ParamError::ArityNotSupportedForPir);
        }
        if num_items == 0 {
            return Err(ParamError::EmptyDatabase);
        }
        if value_len == 0 {
            return Err(ParamError::EmptyValue);
        }
        let percent: u64 = arity.cuckoo_load_percent();
        let slots: u64 = div_up_u64(num_items as u64 * 100, percent);
        let buckets: u64 = div_up_u64(slots, 4);
        let ghost log = seg_log(arity, num_items as int);
        proof {
            geometry::lemma_ceil_div(num_items * 100, percent as int);
            geometry::lemma_ceil_div(slots as int, 4);
        }
        let seg: u64 = next_power_of_2_u64(buckets);
        proof {
            lemma2_to64();
            lemma2_to64_rest();
            assert(pow2(39) >= buckets);
        }
        let degree: u64 = arity.degree() as u64;
        proof {
            assert(seg * degree <= 0x80_0000_0000 * 4) by (nonlinear_arith)
                requires
                    0 <= seg <= 0x80_0000_0000,
                    0 <= degree <= 4,
            ;
        }
        let num_buckets: u64 = seg * degree;
        proof {
            if log > MAX_SEGMENT_LOG {
                lemma_pow2_strictly_increases(22, log);
            } else if log < MAX_SEGMENT_LOG {
                lemma_pow2_strictly_increases(log, 22);
            }
        }
        if num_buckets > u32::MAX as u64 || seg > MAX_SEGMENT {
            return Err(ParamError::TooManyItems);
        }
        let bit_len: u32 = element_width(seg);
        proof {
            assert(seg <= num_buckets) by (nonlinear_arith)
                requires
                    num_buckets == seg * degree,
                    degree >= 1,
            ;
            lemma_log2_of_pow2(log);
        }
        let elems: u64 = div_up_u64(value_len as u64 * 8, bit_len as u64);
        if elems > u32::MAX as u64 {
            return Err(ParamError::ValueTooLarge);
        }
        Ok(
            FilterParams {
                arity,
                num_buckets: num_buckets as u32,
                fingerprint_bits: DEFAULT_FP_BITS,
                row_elems: elems as u32,
                mat_elem_bit_len: bit_len,
                value_len,
            },
        )
    }

    /// Number of candidate buckets per keyword.
    pub fn degree(&self) -> (d: u32)
        ensures
            d == self.arity.spec_degree(),
    {
        self.arity.degree()
    }

    /// Buckets per segment.
    pub fn seg(&self) -> (s: u32)
        ensures
            s == self.spec_seg(),
    {
        self.num_buckets / self.arity.degree()
    }

    /// Slots per bucket.
    pub fn slots_per_bucket(&self) -> (b: u32)
        ensures
            b == DEFAULT_SLOTS_PER_BUCKET,
    {
        DEFAULT_SLOTS_PER_BUCKET
    }

    /// Elements per fingerprint.
    pub fn fp_elems(&self) -> (n: u32)
        requires
            self.mat_elem_bit_len > 0,
        ensures
            n == self.spec_fp_elems(),
    {
        proof {
            geometry::lemma_ceil_div(self.fingerprint_bits as int, self.mat_elem_bit_len as int);
        }
        div_up_u64(self.fingerprint_bits as u64, self.mat_elem_bit_len as u64) as u32
    }

    /// Elements per value.
    pub fn val_elems(&self) -> (n: u32)
        ensures
            n == self.row_elems,
    {
        self.row_elems
    }

    /// Elements per bucket row.
    pub fn row_elems_bucket(&self) -> (n: u32)
        requires
            self.mat_elem_bit_len > 0,
            self.spec_row_elems_bucket() <= u32::MAX,
        ensures
            n == self.spec_row_elems_bucket(),
    {
        proof {
            geometry::lemma_ceil_div(self.fingerprint_bits as int, self.mat_elem_bit_len as int);
        }
        self.slots_per_bucket() * (self.fp_elems() + self.val_elems())
    }

    /// Distance between adjacent encoded values.
    pub fn scale(&self) -> (d: u32)
        requires
            1 <= self.mat_elem_bit_len <= 31,
        ensures
            d == scaling::delta(self.mat_elem_bit_len),
    {
        scaling::scale(self.mat_elem_bit_len)
    }
}

/// Divides and rounds up.
fn div_up_u64(a: u64, b: u64) -> (c: u64)
    requires
        b > 0,
    ensures
        c == geometry::ceil_div(a as int, b as int),
{
    proof {
        geometry::lemma_ceil_div(a as int, b as int);
    }
    if a % b == 0 {
        a / b
    } else {
        a / b + 1
    }
}

/// A power of two is written with one bit more than its exponent.
proof fn lemma_log2_of_pow2(k: nat)
    ensures
        bits::bit_length(pow2(k)) == k + 1,
    decreases k,
{
    lemma2_to64();
    if k > 0 {
        lemma_pow2_unfold(k);
        lemma_pow2_pos((k - 1) as nat);
        lemma_log2_of_pow2((k - 1) as nat);
    } else {
        assert(bits::bit_length(0) == 0);
    }
}

/// Width of the plaintext elements for segments of `seg` buckets.
fn element_width(seg: u64) -> (b: u32)
    requires
        seg >= 1,
    ensures
        b == elem_bits((bits::bit_length(seg as nat) - 1) as nat),
{
    proof {
        bits::lemma_bit_length(seg as nat);
    }
    let log: u32 = bits::bitlen(seg) - 1;
    let budget: u32 = if log >= 30 {
        0
    } else {
        (30 - log) / 2
    };
    if budget < MIN_MAT_ELEM_BIT_LEN {
        MIN_MAT_ELEM_BIT_LEN
    } else if budget > MAX_MAT_ELEM_BIT_LEN {
        MAX_MAT_ELEM_BIT_LEN
    } else {
        budget
    }
}

/// Width of a plaintext element by number of items.
pub open spec fn elem_bits_by_items(num_items: int) -> u32 {
    if num_items <= 2 {
        14
    } else if num_items <= 4 {
        13
    } else if num_items <= 16 {
        12
    } else if num_items <= 64 {
        11
    } else if num_items <= 256 {
        10
    } else if num_items <= 1024 {
        9
    } else if num_items <= 4096 {
        8
    } else if num_items <= 16_384 {
        7
    } else if num_items <= 65_536 {
        6
    } else if num_items <= 262_144 {
        5
    } else {
        4
    }
}

/// Picks the width of a plaintext element by database size.
pub fn mat_elem_bit_len_for(num_items: u32) -> (b: u32)
    ensures
        b == elem_bits_by_items(num_items as int),
{
    if num_items <= 2 {
        MAX_MAT_ELEM_BIT_LEN
    } else if num_items <= 4 {
        13
    } else if num_items <= 16 {
        12
    } else if num_items <= 64 {
        11
    } else if num_items <= 256 {
        10
    } else if num_items <= 1024 {
        9
    } else if num_items <= 4096 {
        8
    } else if num_items <= 16_384 {
        7
    } else if num_items <= 65_536 {
        6
    } else if num_items <= 262_144 {
        5
    } else {
        MIN_MAT_ELEM_BIT_LEN
    }
}

// ---------------------------------------------------------------- laws
/// Recommended parameters: the segments are equal powers of two, the slots hold the items
/// at the target load, and a value's bits fit its elements.
pub proof fn law_recommended_sizes(arity: Arity, num_items: u32, value_len: u32)
    ensures
        recommendation(arity, num_items, value_len) matches Ok(p) ==> {
            &&& exists|k: nat| p.spec_seg() == #[trigger] pow2(k)
            &&& p.num_buckets == p.arity.spec_degree() * p.spec_seg()
            &&& 4 * p.spec_seg() * arity.load_percent() >= num_items * 100
            &&& p.row_elems * p.mat_elem_bit_len >= p.value_len * 8
            &&& MIN_MAT_ELEM_BIT_LEN <= p.mat_elem_bit_len <= MAX_MAT_ELEM_BIT_LEN
        },
{
    if let Ok(p) = recommendation(arity, num_items, value_len) {
        let log = seg_log(arity, num_items as int);
        let slots = slots_needed(arity, num_items as int);
        let d = arity.spec_degree() as int;
        vstd::arithmetic::div_mod::lemma_div_multiples_vanish(pow2(log) as int, d);
        vstd::arithmetic::mul::lemma_mul_is_commutative(pow2(log) as int, d);
        geometry::lemma_ceil_div(num_items * 100, arity.load_percent());
        geometry::lemma_ceil_div(slots, 4);
        lemma_log2_up(geometry::ceil_div(slots, 4) as nat);
        geometry::lemma_ceil_div(value_len * 8, elem_bits(log));
        assert(p.spec_seg() == pow2(log));
        assert(4 * pow2(log) * arity.load_percent() >= slots * arity.load_percent())
            by (nonlinear_arith)
            requires
                4 * pow2(log) >= slots,
                arity.load_percent() >= 0,
        ;
    }
}

/// Recommended parameters keep the noise of a segment below the modulus.
pub proof fn law_recommended_noise(arity: Arity, num_items: u32, value_len: u32)
    ensures
        recommendation(arity, num_items, value_len) matches Ok(p) ==> p.within_budget(),
{
    if let Ok(p) = recommendation(arity, num_items, value_len) {
        let log = seg_log(arity, num_items as int);
        let d = arity.spec_degree() as int;
        vstd::arithmetic::div_mod::lemma_div_multiples_vanish(pow2(log) as int, d);
        vstd::arithmetic::mul::lemma_mul_is_commutative(pow2(log) as int, d);
        let b = p.mat_elem_bit_len as nat;
        assert(log + 2 * b <= 30);
        lemma_pow2_adds(b, b);
        lemma_pow2_adds(log, 2 * b);
        lemma_pow2_unfold(log + 2 * b + 1);
        lemma2_to64();
        lemma_pow2_strictly_increases(log + 2 * b + 1, 32);
        assert(2 * pow2(log) * (pow2(b) * pow2(b)) == 2 * (pow2(log) * pow2(2 * b)))
            by (nonlinear_arith)
            requires
                pow2(b) * pow2(b) == pow2(2 * b),
        ;
    }
}

} // verus!
