//! Field widths of the hint-delta encoding.
use vstd::arithmetic::power2::*;
use vstd::prelude::*;

use crate::bits;
use crate::geometry;
use crate::geometry::CuckooParams;

verus! {

/// Field widths of the hint-delta encoding for one store geometry.
///
/// A width is `0` when its index domain has one element; such a field takes no bits.
#[derive(Debug, Clone, Copy, PartialEq, Eq, Structural)]
pub struct DeltaWireLayout {
    /// Buckets in the store.
    pub num_buckets: u32,
    /// Rows per segment.
    pub segment_size: u32,
    /// Cells per row.
    pub row_width: u32,
    /// The cell modulus is `2^plaintext_bits`.
    pub plaintext_bits: u32,
    /// Width of a bucket index.
    pub bucket_bits: u32,
    /// Width of a cell offset and of a run length minus one.
    pub offset_bits: u32,
    /// Width of one delta code point.
    pub delta_bits: u32,
    /// Longest stretch of zero cells that one run may bridge.
    pub max_gap: u32,
}

/// Width of an index below `n`.
pub open spec fn index_width(n: nat) -> nat {
    if n == 0 {
        0
    } else {
        bits::bit_length((n - 1) as nat)
    }
}

impl DeltaWireLayout {
    /// The widths that a geometry implies.
    pub open spec fn of(params: CuckooParams) -> DeltaWireLayout {
        DeltaWireLayout {
            num_buckets: params.num_buckets,
            segment_size: params.spec_segment_size() as u32,
            row_width: params.spec_row_width() as u32,
            plaintext_bits: params.plaintext_bits,
            bucket_bits: index_width(params.num_buckets as nat) as u32,
            offset_bits: index_width(params.spec_row_width() as nat) as u32,
            delta_bits: (params.plaintext_bits + 1) as u32,
            max_gap: ((2 * index_width(params.spec_row_width() as nat) + 1) / (
            params.plaintext_bits as nat + 1)) as u32,
        }
    }

    /// Encoded length in bits for the given counts.
    pub open spec fn spec_bits(self, rows: nat, runs: nat, cells: nat) -> nat {
        65 + rows * (1 + self.bucket_bits as nat) + runs * (2 * self.offset_bits as nat + 1) + cells
            * self.delta_bits as nat
    }

    /// Derives the widths for one geometry.
    pub fn for_params(params: &CuckooParams) -> (layout: Self)
        requires
            params.has_layout(),
        ensures
            layout == DeltaWireLayout::of(*params),
            layout.segment_size == params.spec_segment_size(),
            layout.row_width == params.spec_row_width(),
            layout.bucket_bits == index_width(params.num_buckets as nat) <= 32,
            layout.offset_bits == index_width(params.spec_row_width() as nat) <= 32,
            layout.max_gap == (2 * layout.offset_bits + 1) / (params.plaintext_bits + 1),
    {
        let num_buckets: u32 = params.num_buckets;
        let segment_size: u32 = params.segment_size();
        let row_width: u32 = params.bucket_size * params.cells_per_slot();
        let plaintext_bits: u32 = params.plaintext_bits;
        proof {
            lemma2_to64();
            lemma_index_width(num_buckets as nat, 32);
            lemma_index_width(row_width as nat, 32);
        }
        let bucket_bits: u32 = bits::bitlen(num_buckets.saturating_sub(1) as u64);
        let offset_bits: u32 = bits::bitlen(row_width.saturating_sub(1) as u64);
        let delta_bits: u32 = plaintext_bits + 1;
        let max_gap: u32 = (2 * offset_bits + 1) / delta_bits;
        DeltaWireLayout {
            num_buckets,
            segment_size,
            row_width,
            plaintext_bits,
            bucket_bits,
            offset_bits,
            delta_bits,
            max_gap,
        }
    }

    /// Encoded length in bits, before byte padding:
    /// `64 + 1 + rows * (1 + IB) + runs * (2 * OW + 1) + cells * DB`.
    pub fn bits(&self, rows: u64, runs: u64, cells: u64) -> (n: u64)
        requires
            self.spec_bits(rows as nat, runs as nat, cells as nat) <= u64::MAX,
        ensures
            n == self.spec_bits(rows as nat, runs as nat, cells as nat),
    {
        proof {
            let a = rows * (1 + self.bucket_bits);
            let b = runs * (2 * self.offset_bits + 1);
            let c = cells * self.delta_bits;
            assert(a >= 0 && b >= 0 && c >= 0) by (nonlinear_arith)
                requires
                    a == rows * (1 + self.bucket_bits),
                    b == runs * (2 * self.offset_bits + 1),
                    c == cells * self.delta_bits,
            ;
        }
        65 + rows * (1 + self.bucket_bits as u64) + runs * (2 * self.offset_bits as u64 + 1) + cells
            * self.delta_bits as u64
    }

    /// Encoded length in bytes: the bits, rounded up.
    pub fn bytes(&self, rows: u64, runs: u64, cells: u64) -> (n: u64)
        requires
            self.spec_bits(rows as nat, runs as nat, cells as nat) <= u64::MAX,
        ensures
            n == geometry::ceil_div(self.spec_bits(rows as nat, runs as nat, cells as nat) as int, 8),
    {
        let n: u64 = self.bits(rows, runs, cells);
        if n % 8 == 0 {
            n / 8
        } else {
            n / 8 + 1
        }
    }
}

/// An index below `n <= 2^w` fits in `index_width(n) <= w` bits.
pub proof fn lemma_index_width(n: nat, w: nat)
    requires
        n <= pow2(w),
    ensures
        index_width(n) <= w,
        n <= pow2(index_width(n)),
{
    lemma2_to64();
    if n > 0 {
        bits::lemma_bit_length_bound((n - 1) as nat, w);
        bits::lemma_bit_length((n - 1) as nat);
    }
}

} // verus!
