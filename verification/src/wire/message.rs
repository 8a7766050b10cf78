//! The hint-delta format: what a message is made of, its bits, and how bits are read back.
//!
//! A message is an epoch and a list of touched rows. A row is a bucket index and a list of
//! runs; a run is a start offset and the deltas of consecutive cells, zeros in between
//! included. All fields are fixed-width numbers, least significant bit first:
//!
//! ```text
//! epoch(64) { 1 bucket(IB) run { 1 run } 0 } 0 padding
//! run = start(OW) length-1(OW) { delta + p - 1 (DB) }
//! ```
use vstd::arithmetic::power2::*;
use vstd::prelude::*;

use crate::bits;
use crate::wire::bit_io;
use crate::wire::layout::DeltaWireLayout;
use crate::wire::WireError;

verus! {

/// Deltas of consecutive cells from offset `start` on.
pub struct Run {
    pub start: int,
    pub deltas: Seq<int>,
}

/// The runs of one touched row.
pub struct Row {
    pub bucket: int,
    pub runs: Seq<Run>,
}

/// The cell modulus.
pub open spec fn modulus(l: DeltaWireLayout) -> int {
    pow2(l.plaintext_bits as nat) as int
}

/// Code point of a delta.
pub open spec fn code(l: DeltaWireLayout, delta: int) -> nat {
    (delta + modulus(l) - 1) as nat
}

/// One past the last offset of a run.
pub open spec fn run_end(r: Run) -> int {
    r.start + r.deltas.len()
}

// ---------------------------------------------------------------- bits of a message
pub open spec fn deltas_bits(l: DeltaWireLayout, d: Seq<int>) -> Seq<bool>
    decreases d.len(),
{
    if d.len() == 0 {
        Seq::empty()
    } else {
        deltas_bits(l, d.drop_last()) + bits::field(code(l, d.last()), l.delta_bits as nat)
    }
}

pub open spec fn run_bits(l: DeltaWireLayout, r: Run) -> Seq<bool> {
    bits::field(r.start as nat, l.offset_bits as nat) + bits::field(
        (r.deltas.len() - 1) as nat,
        l.offset_bits as nat,
    ) + deltas_bits(l, r.deltas)
}

/// Runs with a set bit between two neighbours.
pub open spec fn runs_bits(l: DeltaWireLayout, runs: Seq<Run>) -> Seq<bool>
    decreases runs.len(),
{
    if runs.len() == 0 {
        Seq::empty()
    } else if runs.len() == 1 {
        run_bits(l, runs[0])
    } else {
        runs_bits(l, runs.drop_last()).push(true) + run_bits(l, runs.last())
    }
}

pub open spec fn row_bits(l: DeltaWireLayout, row: Row) -> Seq<bool> {
    (seq![true] + bits::field(row.bucket as nat, l.bucket_bits as nat) + runs_bits(l, row.runs)).push(
        false,
    )
}

pub open spec fn rows_bits(l: DeltaWireLayout, rows: Seq<Row>) -> Seq<bool>
    decreases rows.len(),
{
    if rows.len() == 0 {
        Seq::empty()
    } else {
        rows_bits(l, rows.drop_last()) + row_bits(l, rows.last())
    }
}

/// All bits of a message, before padding.
pub open spec fn message_bits(l: DeltaWireLayout, epoch: u64, rows: Seq<Row>) -> Seq<bool> {
    (bits::field(epoch as nat, 64) + rows_bits(l, rows)).push(false)
}

/// Runs over all rows.
pub open spec fn total_runs(rows: Seq<Row>) -> nat
    decreases rows.len(),
{
    if rows.len() == 0 {
        0
    } else {
        total_runs(rows.drop_last()) + rows.last().runs.len()
    }
}

/// Deltas over the given runs.
pub open spec fn runs_cells(runs: Seq<Run>) -> nat
    decreases runs.len(),
{
    if runs.len() == 0 {
        0
    } else {
        runs_cells(runs.drop_last()) + runs.last().deltas.len()
    }
}

/// Deltas over all rows.
pub open spec fn total_cells(rows: Seq<Row>) -> nat
    decreases rows.len(),
{
    if rows.len() == 0 {
        0
    } else {
        total_cells(rows.drop_last()) + runs_cells(rows.last().runs)
    }
}

// ---------------------------------------------------------------- canonical form
/// Zeros at the end of a sequence.
pub open spec fn trailing_zeros(d: Seq<int>) -> nat
    decreases d.len(),
{
    if d.len() == 0 || d.last() != 0 {
        0
    } else {
        trailing_zeros(d.drop_last()) + 1
    }
}

/// Length of the longest stretch of zeros.
pub open spec fn longest_zeros(d: Seq<int>) -> nat
    decreases d.len(),
{
    if d.len() == 0 {
        0
    } else {
        let before = longest_zeros(d.drop_last());
        let here = trailing_zeros(d);
        if here > before {
            here
        } else {
            before
        }
    }
}

/// A run starts and ends with a non-zero delta and bridges no stretch of zeros longer
/// than the maximal gap.
pub open spec fn run_is_tight(l: DeltaWireLayout, d: Seq<int>) -> bool {
    &&& d[0] != 0
    &&& d.last() != 0
    &&& longest_zeros(d) <= l.max_gap
}

pub open spec fn run_valid(l: DeltaWireLayout, r: Run) -> bool {
    &&& 0 <= r.start < l.row_width
    &&& r.deltas.len() > 0
    &&& run_end(r) <= l.row_width
    &&& run_end(r) <= 0x1_0000
    &&& forall|i: int|
        0 <= i < r.deltas.len() ==> -modulus(l) < #[trigger] r.deltas[i] < modulus(l)
    &&& run_is_tight(l, r.deltas)
}

/// Runs ascend, with more than the maximal gap between neighbours.
pub open spec fn runs_valid(l: DeltaWireLayout, runs: Seq<Run>) -> bool {
    &&& forall|i: int| 0 <= i < runs.len() ==> run_valid(l, #[trigger] runs[i])
    &&& forall|i: int|
        1 <= i < runs.len() ==> (#[trigger] runs[i]).start > run_end(runs[i - 1]) + l.max_gap
}

pub open spec fn row_valid(l: DeltaWireLayout, row: Row) -> bool {
    &&& 0 <= row.bucket < l.num_buckets
    &&& row.runs.len() > 0
    &&& runs_valid(l, row.runs)
}

/// Rows are valid and ascend strictly by bucket.
pub open spec fn rows_valid(l: DeltaWireLayout, rows: Seq<Row>) -> bool {
    &&& forall|i: int| 0 <= i < rows.len() ==> row_valid(l, #[trigger] rows[i])
    &&& forall|i: int, j: int| 0 <= i < j < rows.len() ==> rows[i].bucket < rows[j].bucket
}

// ---------------------------------------------------------------- reading a message
/// Reads the deltas `k..len` of a run that starts at `start`; `acc` holds the earlier ones.
#[verifier::opaque]
pub open spec fn parse_deltas(
    l: DeltaWireLayout,
    s: Seq<bool>,
    pos: nat,
    start: int,
    len: nat,
    acc: Seq<int>,
) -> Result<Seq<int>, WireError>
    decreases len - acc.len(),
{
    if acc.len() >= len {
        Ok(acc)
    } else {
        match bit_io::read(s, pos, l.delta_bits as nat) {
            None => Err(WireError::Truncated),
            Some(c) => {
                let delta = c - (modulus(l) - 1);
                let offset = start + acc.len();
                if c > 2 * modulus(l) - 2 {
                    Err(WireError::DeltaOutOfRange { code: c as u64 })
                } else if delta != 0 && offset > 0xffff {
                    Err(WireError::OffsetOutOfRange { offset: offset as u32 })
                } else {
                    parse_deltas(l, s, pos + l.delta_bits as nat, start, len, acc.push(delta))
                }
            },
        }
    }
}

/// Bits of a run with `len` deltas.
pub open spec fn run_len_bits(l: DeltaWireLayout, len: nat) -> nat {
    2 * l.offset_bits as nat + len * l.delta_bits as nat
}

/// Reads one run; `prev` holds the runs before it in the same row.
#[verifier::opaque]
pub open spec fn parse_run(l: DeltaWireLayout, s: Seq<bool>, pos: nat, prev: Seq<Run>) -> Result<
    Run,
    WireError,
> {
    let ow = l.offset_bits as nat;
    match bit_io::read(s, pos, ow) {
        None => Err(WireError::Truncated),
        Some(start) => if start >= l.row_width {
            Err(WireError::OffsetOutOfRange { offset: start as u32 })
        } else {
            match bit_io::read(s, pos + ow, ow) {
                None => Err(WireError::Truncated),
                Some(len_minus_1) => {
                    let len = len_minus_1 + 1;
                    if start + len > l.row_width {
                        Err(WireError::OffsetOutOfRange { offset: (start + len) as u32 })
                    } else if prev.len() > 0 && start <= run_end(prev.last()) + l.max_gap {
                        Err(WireError::NonCanonicalRuns)
                    } else {
                        match parse_deltas(l, s, pos + 2 * ow, start as int, len, Seq::empty()) {
                            Err(e) => Err(e),
                            Ok(deltas) => if run_is_tight(l, deltas) {
                                Ok(Run { start: start as int, deltas })
                            } else {
                                Err(WireError::NonCanonicalRuns)
                            },
                        }
                    }
                },
            }
        },
    }
}

/// Reads the remaining runs of a row and gives all its runs and the position after them.
#[verifier::opaque]
pub open spec fn parse_runs(l: DeltaWireLayout, s: Seq<bool>, pos: nat, acc: Seq<Run>) -> Result<
    (Seq<Run>, nat),
    WireError,
>
    decreases s.len() - pos,
{
    match parse_run(l, s, pos, acc) {
        Err(e) => Err(e),
        Ok(r) => {
            let after = pos + run_len_bits(l, r.deltas.len());
            match bit_io::read(s, after, 1) {
                None => Err(WireError::Truncated),
                Some(flag) => if flag == 0 {
                    Ok((acc.push(r), after + 1))
                } else {
                    parse_runs(l, s, after + 1, acc.push(r))
                },
            }
        },
    }
}

/// Reading runs moves forward and stays inside the string.
pub proof fn lemma_parse_runs_advances(l: DeltaWireLayout, s: Seq<bool>, pos: nat, acc: Seq<Run>)
    ensures
        parse_runs(l, s, pos, acc) matches Ok((_, after)) ==> pos < after <= s.len(),
    decreases s.len() - pos,
{
    reveal(parse_runs);
    if let Ok(r) = parse_run(l, s, pos, acc) {
        let after = pos + run_len_bits(l, r.deltas.len());
        assert(after >= pos);
        if let Some(flag) = bit_io::read(s, after, 1) {
            if flag != 0 {
                lemma_parse_runs_advances(l, s, after + 1, acc.push(r));
            }
        }
    }
}

/// Reads one row and the position after it, or nothing where the list of rows ends;
/// `prev` holds the rows before it.
#[verifier::opaque]
pub open spec fn parse_row(l: DeltaWireLayout, s: Seq<bool>, pos: nat, prev: Seq<Row>) -> Result<
    Option<(Row, nat)>,
    WireError,
> {
    match bit_io::read(s, pos, 1) {
        None => Err(WireError::Truncated),
        Some(flag) => if flag == 0 {
            Ok(None)
        } else {
            match bit_io::read(s, pos + 1, l.bucket_bits as nat) {
                None => Err(WireError::Truncated),
                Some(bucket) => if bucket >= l.num_buckets {
                    Err(WireError::BucketOutOfRange { bucket: bucket as u32 })
                } else if prev.len() > 0 && bucket <= prev.last().bucket {
                    Err(WireError::NonCanonicalRows)
                } else {
                    match parse_runs(l, s, pos + 1 + l.bucket_bits as nat, Seq::empty()) {
                        Err(e) => Err(e),
                        Ok((runs, after)) => Ok(
                            Some((Row { bucket: bucket as int, runs }, after)),
                        ),
                    }
                },
            }
        },
    }
}

/// Reading a row moves forward and stays inside the string.
pub proof fn lemma_parse_row_advances(l: DeltaWireLayout, s: Seq<bool>, pos: nat, prev: Seq<Row>)
    ensures
        parse_row(l, s, pos, prev) matches Ok(Some((_, after))) ==> pos < after <= s.len(),
        parse_row(l, s, pos, prev) matches Ok(None) ==> pos < s.len(),
{
    reveal(parse_row);
    lemma_parse_runs_advances(l, s, pos + 1 + l.bucket_bits as nat, Seq::empty());
}

/// Reads the remaining rows and gives all rows and the position after them.
#[verifier::opaque]
pub open spec fn parse_rows(l: DeltaWireLayout, s: Seq<bool>, pos: nat, acc: Seq<Row>) -> Result<
    (Seq<Row>, nat),
    WireError,
>
    decreases s.len() - pos,
{
    match parse_row(l, s, pos, acc) {
        Err(e) => Err(e),
        Ok(None) => Ok((acc, pos + 1)),
        Ok(Some((row, after))) => {
            proof {
                lemma_parse_row_advances(l, s, pos, acc);
            }
            parse_rows(l, s, after, acc.push(row))
        },
    }
}

/// Reads a whole message: epoch, rows, clear padding, and nothing after it.
pub open spec fn parse_message(l: DeltaWireLayout, s: Seq<bool>) -> Result<
    (u64, Seq<Row>),
    WireError,
> {
    match bit_io::read(s, 0, 64) {
        None => Err(WireError::Truncated),
        Some(epoch) => match parse_rows(l, s, 64, Seq::empty()) {
            Err(e) => Err(e),
            Ok((rows, pos)) => {
                let end = pos + bits::pad_len(pos);
                if exists|i: int| pos <= i < end && i < s.len() && #[trigger] s[i] {
                    Err(WireError::NonZeroPadding)
                } else if end != s.len() {
                    Err(WireError::TrailingBytes)
                } else {
                    Ok((epoch as u64, rows))
                }
            },
        },
    }
}

} // verus!
