//! Shape of a segmented cuckoo key-value store.
use vstd::prelude::*;

verus! {

/// Which segmented hashing scheme a store uses.
#[derive(Debug, Clone, Copy, PartialEq, Eq, Structural)]
pub enum SchemeKind {
    /// Two candidate buckets per key.
    Segmented2ary,
    /// Three candidate buckets per key.
    Segmented3ary,
    /// Four candidate buckets per key.
    Segmented4ary,
}

/// Geometry of a segmented cuckoo key-value store.
#[derive(Debug, Clone, Copy, PartialEq, Eq, Structural)]
pub struct CuckooParams {
    /// Hashing scheme.
    pub scheme_kind: SchemeKind,
    /// Buckets over all segments.
    pub num_buckets: u32,
    /// Slots per bucket.
    pub bucket_size: u32,
    /// Bits of a fingerprint.
    pub fingerprint_bits: u32,
    /// Bits of a value.
    pub value_bits: u32,
    /// Bits of one plaintext cell.
    pub plaintext_bits: u32,
}

/// `a / b`, rounded up.
pub open spec fn ceil_div(a: int, b: int) -> int {
    (a + b - 1) / b
}

/// Rounding up adds one to the quotient where there is a remainder.
pub proof fn lemma_ceil_div(a: int, b: int)
    requires
        0 <= a,
        0 < b,
    ensures
        ceil_div(a, b) == a / b + if a % b == 0 {
            0int
        } else {
            1int
        },
        0 <= ceil_div(a, b) <= a,
        ceil_div(a, b) * b >= a,
        (ceil_div(a, b) - 1) * b < a,
{
    let w = a / b;
    let r = a % b;
    vstd::arithmetic::div_mod::lemma_fundamental_div_mod(a, b);
    vstd::arithmetic::div_mod::lemma_mod_bound(a, b);
    vstd::arithmetic::div_mod::lemma_div_pos_is_pos(a, b);
    if r == 0 {
        vstd::arithmetic::div_mod::lemma_fundamental_div_mod_converse(a + b - 1, b, w, b - 1);
        assert(w <= a && w * b >= a && (w - 1) * b < a) by (nonlinear_arith)
            requires
                a == b * w,
                b >= 1,
                w >= 0,
        ;
    } else {
        assert(a + b - 1 == b * (w + 1) + (r - 1)) by (nonlinear_arith)
            requires
                a == b * w + r,
        ;
        vstd::arithmetic::div_mod::lemma_fundamental_div_mod_converse(a + b - 1, b, w + 1, r - 1);
        assert(w + 1 <= a && (w + 1) * b >= a && w * b < a) by (nonlinear_arith)
            requires
                a == b * w + r,
                0 < r < b,
                b >= 1,
                w >= 0,
        ;
    }
}

impl SchemeKind {
    /// Candidate buckets per key.
    pub open spec fn spec_arity(self) -> nat {
        match self {
            SchemeKind::Segmented2ary => 2,
            SchemeKind::Segmented3ary => 3,
            SchemeKind::Segmented4ary => 4,
        }
    }
}

/// Divides and rounds up.
pub fn div_up(a: usize, b: usize) -> (c: usize)
    requires
        b > 0,
    ensures
        c == ceil_div(a as int, b as int),
{
    proof {
        lemma_ceil_div(a as int, b as int);
    }
    if a % b == 0 {
        a / b
    } else {
        a / b + 1
    }
}

impl CuckooParams {
    /// Number of segments.
    pub open spec fn spec_arity(self) -> nat {
        self.scheme_kind.spec_arity()
    }

    /// Buckets per segment.
    pub open spec fn spec_segment_size(self) -> nat {
        self.num_buckets as nat / self.spec_arity()
    }

    /// Cells that hold one fingerprint and one value, packed without gaps.
    pub open spec fn spec_cells_per_slot(self) -> int {
        ceil_div(self.fingerprint_bits + self.value_bits, self.plaintext_bits as int)
    }

    /// Cells that hold one value.
    pub open spec fn spec_value_size_in_cells(self) -> int {
        ceil_div(self.value_bits as int, self.plaintext_bits as int)
    }

    /// Cells per bucket.
    pub open spec fn spec_row_width(self) -> int {
        self.bucket_size * self.spec_cells_per_slot()
    }

    /// The geometry has cells, and a row's width is a 32-bit number.
    pub open spec fn has_layout(self) -> bool {
        &&& self.plaintext_bits >= 1
        &&& self.plaintext_bits < u32::MAX
        &&& self.fingerprint_bits + self.value_bits <= u32::MAX
        &&& self.spec_row_width() <= u32::MAX
    }

    /// The geometry splits into equal segments, and offsets and deltas have room in 32 and 63
    /// bits.
    pub open spec fn valid(self) -> bool {
        &&& self.has_layout()
        &&& self.num_buckets as nat % self.spec_arity() == 0
        &&& self.plaintext_bits <= 62
        &&& self.spec_row_width() <= 0x8000_0000
    }

    /// Number of segments: 2, 3 or 4.
    pub fn arity(&self) -> (d: usize)
        ensures
            d == self.spec_arity(),
    {
        match self.scheme_kind {
            SchemeKind::Segmented2ary => 2,
            SchemeKind::Segmented3ary => 3,
            SchemeKind::Segmented4ary => 4,
        }
    }

    /// Buckets per segment.
    pub fn segment_size(&self) -> (s: u32)
        ensures
            s == self.spec_segment_size(),
    {
        self.num_buckets / (self.arity() as u32)
    }

    /// Cells per slot.
    pub fn cells_per_slot(&self) -> (c: u32)
        requires
            self.plaintext_bits >= 1,
            self.fingerprint_bits + self.value_bits <= u32::MAX,
        ensures
            c == self.spec_cells_per_slot(),
    {
        let total: u32 = self.fingerprint_bits + self.value_bits;
        let whole: u32 = total / self.plaintext_bits;
        let rest: u32 = total % self.plaintext_bits;
        proof {
            lemma_ceil_div(total as int, self.plaintext_bits as int);
        }
        if rest == 0 {
            whole
        } else {
            whole + 1
        }
    }

    /// Cells that hold one value.
    pub fn value_size_in_cells(&self) -> (c: u32)
        requires
            self.plaintext_bits >= 1,
        ensures
            c == self.spec_value_size_in_cells(),
    {
        let whole: u32 = self.value_bits / self.plaintext_bits;
        let rest: u32 = self.value_bits % self.plaintext_bits;
        proof {
            lemma_ceil_div(self.value_bits as int, self.plaintext_bits as int);
        }
        if rest == 0 {
            whole
        } else {
            whole + 1
        }
    }
}

} // verus!
