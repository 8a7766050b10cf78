//! The bits of an encoded bundle, field by field.
use vstd::arithmetic::power2::*;
use vstd::prelude::*;
use vstd::std_specs::cmp::PartialEqSpec;

use crate::backend::IndexPirBackend;
use crate::bits;
use crate::wire::bit_io;
use crate::wire::hint_delta;
use crate::wire::hint_delta::{HintDeltaBundle, SegmentRowDeltas};
use crate::wire::layout::DeltaWireLayout;
use crate::wire::message;
use crate::wire::sparse;
use crate::wire::sparse::Edits;

verus! {

// ---------------------------------------------------------------- bits
/// A field holds the low bits of its number, the lowest first; bytes are read the same way, one
/// after another; and bits are read as the number that they stand for.
pub proof fn law_bit_order(v: nat, width: nat, i: int, bytes: Seq<u8>, k: int)
    requires
        0 <= i < width,
        0 <= k < 8 * bytes.len(),
    ensures
        bits::field(v, width).len() == width,
        bits::field(v, width)[i] <==> (v / pow2(i as nat)) % 2 == 1,
        bits::val(bits::field(v, width)) == v % pow2(width),
        bits::stream(bytes).len() == 8 * bytes.len(),
        bits::stream(bytes)[k] <==> (bytes[k / 8] >> ((k % 8) as u8)) & 1u8 == 1u8,
        bit_io::read(bits::field(v, width), 0, width) == Some(v % pow2(width)),
{
    bits::lemma_val_field(v, width);
    let f = bits::field(v, width);
    assert(f.subrange(0, width as int) =~= f);
}

/// A read takes the bits at its place, as many as it asks for, and fails only where there are
/// not so many.
pub proof fn law_read(s: Seq<bool>, pos: nat, width: nat)
    ensures
        bit_io::read(s, pos, width) is None <==> pos + width > s.len(),
        pos + width <= s.len() ==> bits::field(bit_io::read(s, pos, width)->0, width)
            == s.subrange(pos as int, (pos + width) as int),
{
    if pos + width <= s.len() {
        bits::lemma_field_val(s.subrange(pos as int, (pos + width) as int));
    }
}

// ---------------------------------------------------------------- messages
/// A message is the epoch in 64 bits, its rows, and a clear bit.
pub proof fn law_message_format(l: DeltaWireLayout, epoch: u64, rows: Seq<message::Row>)
    ensures
        message::message_bits(l, epoch, rows) == bits::field(epoch as nat, 64)
            + message::rows_bits(l, rows) + seq![false],
{
    assert(message::message_bits(l, epoch, rows) =~= bits::field(epoch as nat, 64)
        + message::rows_bits(l, rows) + seq![false]);
}

/// Rows stand one after another; each is a set bit, its bucket, its runs, and a clear bit.
pub proof fn law_row_format(l: DeltaWireLayout, rows: Seq<message::Row>, r: message::Row)
    ensures
        message::rows_bits(l, Seq::empty()) == Seq::<bool>::empty(),
        message::rows_bits(l, rows.push(r)) == message::rows_bits(l, rows) + seq![true]
            + bits::field(r.bucket as nat, l.bucket_bits as nat) + message::runs_bits(l, r.runs)
            + seq![false],
{
    assert(rows.push(r).drop_last() =~= rows);
    assert(message::rows_bits(l, rows.push(r)) =~= message::rows_bits(l, rows) + seq![true]
        + bits::field(r.bucket as nat, l.bucket_bits as nat) + message::runs_bits(l, r.runs)
        + seq![false]);
}

/// Runs stand one after another with a set bit between two of them; each is its start, its length
/// less one, and its deltas.
pub proof fn law_run_format(l: DeltaWireLayout, runs: Seq<message::Run>, r: message::Run)
    requires
        runs.len() > 0,
        r.deltas.len() > 0,
    ensures
        ({
            let one = bits::field(r.start as nat, l.offset_bits as nat) + bits::field(
                (r.deltas.len() - 1) as nat,
                l.offset_bits as nat,
            ) + message::deltas_bits(l, r.deltas);
            &&& message::runs_bits(l, seq![r]) == one
            &&& message::runs_bits(l, runs.push(r)) == message::runs_bits(l, runs) + seq![true]
                + one
        }),
{
    let one = bits::field(r.start as nat, l.offset_bits as nat) + bits::field(
        (r.deltas.len() - 1) as nat,
        l.offset_bits as nat,
    ) + message::deltas_bits(l, r.deltas);
    assert(message::run_bits(l, r) =~= one);
    assert(runs.push(r).drop_last() =~= runs);
    assert(message::runs_bits(l, runs.push(r)) =~= message::runs_bits(l, runs) + seq![true] + one);
}

/// Deltas stand one after another; each is written as itself plus the cells' modulus less one.
pub proof fn law_delta_format(l: DeltaWireLayout, d: Seq<int>, x: int)
    requires
        l.delta_bits == l.plaintext_bits + 1,
    ensures
        message::deltas_bits(l, Seq::empty()) == Seq::<bool>::empty(),
        message::deltas_bits(l, d.push(x)) == message::deltas_bits(l, d) + bits::field(
            (x + pow2(l.plaintext_bits as nat) - 1) as nat,
            (l.plaintext_bits + 1) as nat,
        ),
{
    assert(d.push(x).drop_last() =~= d);
}

// ---------------------------------------------------------------- bundles
/// The edits of a bundle are all of its rows with all of their cells.
pub proof fn law_edits_are_all(segs: Seq<SegmentRowDeltas>, j: int, i: int)
    requires
        0 <= j < segs.len(),
        0 <= i < segs[j]@.len(),
    ensures
        hint_delta::deltas_view(segs).len() == segs.len(),
        hint_delta::deltas_view(segs)[j] == hint_delta::edits_view(segs[j]@),
        hint_delta::edits_view(segs[j]@).len() == segs[j]@.len(),
        hint_delta::edits_view(segs[j]@)[i] == (segs[j]@[i].0, segs[j]@[i].1@),
{
}

/// What a bundle encodes: its edits, laid out by its geometry, under its epoch.
pub proof fn law_bundle_parts<B: IndexPirBackend>(b: HintDeltaBundle<B>)
    ensures
        b.edits() == hint_delta::deltas_view(b.per_segment_row_deltas@),
        b.spec_layout() == DeltaWireLayout::of(b.params),
        b.rows() == sparse::all_rows(DeltaWireLayout::of(b.params), b.edits()),
        b.wire_bits() == message::message_bits(
            DeltaWireLayout::of(b.params),
            b.epoch,
            b.rows(),
        ),
{
}

/// The rows of a message are those of the segments, one segment after another; a row's bucket is
/// its place in the segment behind all segments before it.
pub proof fn law_rows_by_segment(l: DeltaWireLayout, segs: Seq<Edits>, edits: Edits, i: int)
    requires
        0 <= i < edits.len(),
    ensures
        sparse::all_rows(l, Seq::empty()) == Seq::<message::Row>::empty(),
        ({
            let before = sparse::all_rows(l, segs);
            let after = sparse::all_rows(l, segs.push(edits));
            &&& after.len() == before.len() + edits.len()
            &&& after.take(before.len() as int) == before
            &&& after[before.len() + i].bucket == segs.len() * l.segment_size + edits[i].0
            &&& after[before.len() + i].runs == sparse::split(l.max_gap as nat, edits[i].1)
        }),
{
    let before = sparse::all_rows(l, segs);
    let after = sparse::all_rows(l, segs.push(edits));
    assert(segs.push(edits).drop_last() =~= segs);
    assert(after.take(before.len() as int) =~= before);
}

/// Bundles are equal where epoch, edits and geometry are, and only there.
pub proof fn law_equal_bundles<B: IndexPirBackend>(a: HintDeltaBundle<B>, b: HintDeltaBundle<B>)
    ensures
        a.eq_spec(&b) <==> a.epoch == b.epoch && a.edits() == b.edits() && a.params == b.params,
{
}

} // verus!
