//! Which bundles can be sent, and what is answered to bytes that are none.
use vstd::arithmetic::power2::*;
use vstd::prelude::*;

use crate::backend::IndexPirBackend;
use crate::bits;
use crate::geometry::CuckooParams;
use crate::geometry_laws;
use crate::wire::bit_io;
use crate::wire::codec;
use crate::wire::hint_delta;
use crate::wire::hint_delta::{HintDeltaBundle, RunSpan};
use crate::wire::layout::DeltaWireLayout;
use crate::wire::message;
use crate::wire::sparse;
use crate::wire::sparse::Edits;
use crate::wire::WireError;

verus! {

// ---------------------------------------------------------------- canonical bundles
/// One list of rows per segment; rows ascend below the segment size and have at least one cell;
/// cells ascend below the row width; and deltas are not zero and smaller than the cells'
/// modulus.
pub open spec fn in_order(p: CuckooParams, edits: Seq<Edits>) -> bool {
    let m = pow2(p.plaintext_bits as nat);
    &&& edits.len() == geometry_laws::ways(p.scheme_kind)
    &&& forall|j: int, i: int|
        0 <= j < edits.len() && 0 <= i < edits[j].len() ==> (#[trigger] edits[j][i]).0
            < p.spec_segment_size() && edits[j][i].1.len() > 0
    &&& forall|j: int, i: int, k: int|
        0 <= j < edits.len() && 0 <= i < k < edits[j].len() ==> (#[trigger] edits[j][i]).0 < (
        #[trigger] edits[j][k]).0
    &&& forall|j: int, i: int, x: int|
        0 <= j < edits.len() && 0 <= i < edits[j].len() && 0 <= x < edits[j][i].1.len() ==> {
            let cell = #[trigger] edits[j][i].1[x];
            cell.0 < p.spec_row_width() && cell.1 != 0 && -m < cell.1 < m
        }
    &&& forall|j: int, i: int, x: int, y: int|
        0 <= j < edits.len() && 0 <= i < edits[j].len() && 0 <= x < y < edits[j][i].1.len() ==> (
        #[trigger] edits[j][i].1[x]).0 < (#[trigger] edits[j][i].1[y]).0
}

/// A bundle is canonical if and only if its edits are in order; their number does not matter,
/// nor the epoch.
pub proof fn law_canonical_is_in_order<B: IndexPirBackend>(b: HintDeltaBundle<B>)
    requires
        b.params.valid(),
    ensures
        b.canonical() <==> in_order(b.params, b.edits()),
{
    let p = b.params;
    let l = DeltaWireLayout::of(p);
    let edits = b.edits();
    hint_delta::lemma_layout(p);
    if in_order(p, edits) {
        assert forall|j: int| 0 <= j < edits.len() implies sparse::edits_canonical(
            l,
            #[trigger] edits[j],
        ) by {
            let e = edits[j];
            assert forall|i: int| 0 <= i < e.len() implies {
                &&& (#[trigger] e[i]).0 < l.segment_size
                &&& e[i].1.len() > 0
                &&& sparse::cells_canonical(l, e[i].1)
            } by {
                assert(edits[j][i].0 < p.spec_segment_size());
                let cells = e[i].1;
                assert forall|x: int| 0 <= x < cells.len() implies {
                    &&& (#[trigger] cells[x]).0 < l.row_width
                    &&& cells[x].1 != 0
                    &&& -message::modulus(l) < cells[x].1 < message::modulus(l)
                } by {
                    assert(edits[j][i].1[x].0 < p.spec_row_width());
                }
                assert forall|x: int, y: int| 0 <= x < y < cells.len() implies cells[x].0
                    < cells[y].0 by {
                    assert(edits[j][i].1[x].0 < edits[j][i].1[y].0);
                }
            }
            assert forall|i: int, k: int| 0 <= i < k < e.len() implies e[i].0 < e[k].0 by {
                assert(edits[j][i].0 < edits[j][k].0);
            }
        }
    }
    if b.canonical() {
        assert forall|j: int, i: int|
            0 <= j < edits.len() && 0 <= i < edits[j].len() implies (#[trigger] edits[j][i]).0
            < p.spec_segment_size() && edits[j][i].1.len() > 0 by {
            assert(sparse::edits_canonical(l, edits[j]));
        }
        assert forall|j: int, i: int, k: int|
            0 <= j < edits.len() && 0 <= i < k < edits[j].len() implies (#[trigger] edits[j][i]).0
            < (#[trigger] edits[j][k]).0 by {
            assert(sparse::edits_canonical(l, edits[j]));
        }
        assert forall|j: int, i: int, x: int|
            0 <= j < edits.len() && 0 <= i < edits[j].len() && 0 <= x
                < edits[j][i].1.len() implies ({
            let m = pow2(p.plaintext_bits as nat);
            let cell = #[trigger] edits[j][i].1[x];
            cell.0 < p.spec_row_width() && cell.1 != 0 && -m < cell.1 < m
        }) by {
            assert(sparse::edits_canonical(l, edits[j]));
            assert(sparse::cells_canonical(l, edits[j][i].1));
        }
        assert forall|j: int, i: int, x: int, y: int|
            0 <= j < edits.len() && 0 <= i < edits[j].len() && 0 <= x < y
                < edits[j][i].1.len() implies (#[trigger] edits[j][i].1[x]).0 < (
        #[trigger] edits[j][i].1[y]).0 by {
            assert(sparse::edits_canonical(l, edits[j]));
            assert(sparse::cells_canonical(l, edits[j][i].1));
        }
    }
}

/// Every bundle whose edits are in order can be sent: what is decoded from its encoding has the
/// same epoch and the same edits.
pub proof fn law_edits_come_back<B: IndexPirBackend>(b: HintDeltaBundle<B>)
    requires
        b.params.valid(),
        in_order(b.params, b.edits()),
    ensures
        ({
            let l = DeltaWireLayout::of(b.params);
            let r = message::parse_message(l, bits::padded(b.wire_bits()));
            &&& r is Ok
            &&& (r->Ok_0).0 == b.epoch
            &&& sparse::message_edits(l, (r->Ok_0).1, b.params.spec_arity()) == b.edits()
        }),
{
    law_canonical_is_in_order(b);
    b.law_decode_encode();
}

// ---------------------------------------------------------------- refused bytes
/// What an error claims of the number that it names: a bucket that does not exist, an offset
/// past the row or past what offsets can hold, the one code that stands for no delta.
pub open spec fn is_true(l: DeltaWireLayout, e: WireError) -> bool {
    match e {
        WireError::BucketOutOfRange { bucket } => bucket >= l.num_buckets,
        WireError::OffsetOutOfRange { offset } => offset >= l.row_width || offset >= 0x1_0000,
        WireError::DeltaOutOfRange { code } => code == 2 * pow2(l.plaintext_bits as nat) - 1,
        _ => true,
    }
}

/// The widths go with a valid geometry.
pub open spec fn widths_ok(l: DeltaWireLayout) -> bool {
    &&& codec::layout_ok(l)
    &&& l.plaintext_bits <= 62
    &&& l.bucket_bits <= 32
    &&& l.offset_bits <= 31
}

proof fn lemma_deltas_error(
    l: DeltaWireLayout,
    s: Seq<bool>,
    pos: nat,
    start: int,
    len: nat,
    acc: Seq<int>,
)
    requires
        widths_ok(l),
        0 <= start,
        start + len <= l.row_width,
    ensures
        message::parse_deltas(l, s, pos, start, len, acc) matches Err(e) ==> is_true(l, e),
    decreases len - acc.len(),
{
    reveal(message::parse_deltas);
    if acc.len() < len {
        let w = l.delta_bits as nat;
        codec::lemma_read_at(s, pos, w);
        lemma_pow2_unfold(w);
        lemma2_to64();
        lemma2_to64_rest();
        if w < 63 {
            lemma_pow2_strictly_increases(w, 63);
        }
        if let Some(c) = bit_io::read(s, pos, w) {
            lemma_deltas_error(l, s, pos + w, start, len, acc.push(c - (message::modulus(l) - 1)));
        }
    }
}

proof fn lemma_run_error(l: DeltaWireLayout, s: Seq<bool>, pos: nat, prev: Seq<message::Run>)
    requires
        widths_ok(l),
    ensures
        message::parse_run(l, s, pos, prev) matches Err(e) ==> is_true(l, e),
{
    reveal(message::parse_run);
    let ow = l.offset_bits as nat;
    codec::lemma_read_at(s, pos, ow);
    codec::lemma_read_at(s, pos + ow, ow);
    lemma2_to64();
    if ow < 31 {
        lemma_pow2_strictly_increases(ow, 31);
    }
    if let Some(start) = bit_io::read(s, pos, ow) {
        if let Some(n) = bit_io::read(s, pos + ow, ow) {
            if start + n + 1 <= l.row_width {
                lemma_deltas_error(l, s, pos + 2 * ow, start as int, n + 1, Seq::empty());
            }
        }
    }
}

proof fn lemma_runs_error(l: DeltaWireLayout, s: Seq<bool>, pos: nat, acc: Seq<message::Run>)
    requires
        widths_ok(l),
    ensures
        message::parse_runs(l, s, pos, acc) matches Err(e) ==> is_true(l, e),
    decreases s.len() - pos,
{
    reveal(message::parse_runs);
    lemma_run_error(l, s, pos, acc);
    if let Ok(r) = message::parse_run(l, s, pos, acc) {
        let after = pos + message::run_len_bits(l, r.deltas.len());
        if bit_io::read(s, after, 1) is Some && bit_io::read(s, after, 1)->0 != 0 {
            lemma_runs_error(l, s, after + 1, acc.push(r));
        }
    }
}

proof fn lemma_rows_error(l: DeltaWireLayout, s: Seq<bool>, pos: nat, acc: Seq<message::Row>)
    requires
        widths_ok(l),
    ensures
        message::parse_rows(l, s, pos, acc) matches Err(e) ==> is_true(l, e),
    decreases s.len() - pos,
{
    reveal(message::parse_rows);
    reveal(message::parse_row);
    let bw = l.bucket_bits as nat;
    codec::lemma_read_at(s, pos + 1, bw);
    lemma2_to64();
    if bw < 32 {
        lemma_pow2_strictly_increases(bw, 32);
    }
    lemma_runs_error(l, s, pos + 1 + bw, Seq::empty());
    if let Ok(Some((row, after))) = message::parse_row(l, s, pos, acc) {
        message::lemma_parse_row_advances(l, s, pos, acc);
        lemma_rows_error(l, s, after, acc.push(row));
    }
}

/// An error that names a number tells the truth about it.
pub proof fn law_errors_are_true(p: CuckooParams, bytes: Seq<u8>)
    requires
        p.valid(),
    ensures
        message::parse_message(DeltaWireLayout::of(p), bits::stream(bytes)) matches Err(e)
            ==> is_true(DeltaWireLayout::of(p), e),
{
    hint_delta::lemma_layout(p);
    lemma_rows_error(DeltaWireLayout::of(p), bits::stream(bytes), 64, Seq::empty());
}

/// Where a message ends, and what is answered to what follows.
proof fn lemma_message_end(
    l: DeltaWireLayout,
    epoch: u64,
    rows: Seq<message::Row>,
    s: Seq<bool>,
)
    requires
        codec::layout_ok(l),
        message::rows_valid(l, rows),
        s.len() >= message::message_bits(l, epoch, rows).len(),
        s.take(message::message_bits(l, epoch, rows).len() as int) == message::message_bits(
            l,
            epoch,
            rows,
        ),
    ensures
        bit_io::read(s, 0, 64) == Some(epoch as nat),
        message::parse_rows(l, s, 64, Seq::empty()) == Ok::<(Seq<message::Row>, nat), WireError>(
            (rows, message::message_bits(l, epoch, rows).len()),
        ),
{
    let m = message::message_bits(l, epoch, rows);
    let f = bits::field(epoch as nat, 64);
    let tail = message::rows_bits(l, rows).push(false);
    assert(codec::at(s, 0, m)) by {
        reveal(codec::at);
        assert(s.subrange(0, m.len() as int) =~= s.take(m.len() as int));
    }
    assert(m =~= f + tail);
    codec::lemma_at_split(s, 0, f, tail);
    lemma2_to64();
    codec::lemma_at_read(s, 0, epoch as nat, 64);
    assert(rows.skip(0) =~= rows);
    assert(rows.take(0) =~= Seq::<message::Row>::empty());
    codec::lemma_parse_rows_ok(l, s, 64, rows, 0);
}

/// Bytes after an encoded bundle are refused as such, however many they are.
pub proof fn law_trailing_bytes<B: IndexPirBackend>(b: HintDeltaBundle<B>, more: Seq<bool>)
    requires
        b.params.valid(),
        in_order(b.params, b.edits()),
        more.len() > 0,
    ensures
        message::parse_message(
            DeltaWireLayout::of(b.params),
            bits::padded(b.wire_bits()) + more,
        ) == Err::<(u64, Seq<message::Row>), WireError>(WireError::TrailingBytes),
{
    let l = DeltaWireLayout::of(b.params);
    let m = b.wire_bits();
    let s = bits::padded(m) + more;
    law_canonical_is_in_order(b);
    hint_delta::lemma_layout(b.params);
    b.lemma_wire_bits_len();
    assert(s.take(m.len() as int) =~= m);
    lemma_message_end(l, b.epoch, b.rows(), s);
    let end = m.len() + bits::pad_len(m.len());
    assert forall|i: int| m.len() <= i < end && i < s.len() implies !#[trigger] s[i] by {
        assert(s[i] == bits::padded(m)[i]);
    }
}

/// A set bit among the padding of an encoded bundle is refused as such.
pub proof fn law_padding_is_clear<B: IndexPirBackend>(b: HintDeltaBundle<B>, i: int)
    requires
        b.params.valid(),
        in_order(b.params, b.edits()),
        b.wire_bits().len() <= i < bits::padded(b.wire_bits()).len(),
    ensures
        message::parse_message(
            DeltaWireLayout::of(b.params),
            bits::padded(b.wire_bits()).update(i, true),
        ) == Err::<(u64, Seq<message::Row>), WireError>(WireError::NonZeroPadding),
{
    let l = DeltaWireLayout::of(b.params);
    let m = b.wire_bits();
    let s = bits::padded(m).update(i, true);
    law_canonical_is_in_order(b);
    hint_delta::lemma_layout(b.params);
    b.lemma_wire_bits_len();
    assert(s.take(m.len() as int) =~= m);
    lemma_message_end(l, b.epoch, b.rows(), s);
    assert(s[i]);
}

/// The encoding is filled up with clear bits to the next byte and no further.
pub proof fn law_padding_is_short(m: Seq<bool>)
    ensures
        bits::padded(m).len() % 8 == 0,
        m.len() <= bits::padded(m).len() < m.len() + 8,
        bits::padded(m).take(m.len() as int) == m,
        forall|i: int| m.len() <= i < bits::padded(m).len() ==> !#[trigger] bits::padded(m)[i],
{
    assert(bits::padded(m).take(m.len() as int) =~= m);
}

// ---------------------------------------------------------------- truncated bytes
/// What is read from a prefix is what is read from the whole, or nothing.
proof fn lemma_read_prefix(s: Seq<bool>, m: nat, pos: nat, width: nat)
    requires
        m <= s.len(),
        bit_io::read(s, pos, width) is Some,
    ensures
        bit_io::read(s.take(m as int), pos, width) == if pos + width <= m {
            bit_io::read(s, pos, width)
        } else {
            None
        },
{
    if pos + width <= m {
        assert(s.take(m as int).subrange(pos as int, (pos + width) as int) =~= s.subrange(
            pos as int,
            (pos + width) as int,
        ));
    }
}

proof fn lemma_deltas_prefix(
    l: DeltaWireLayout,
    s: Seq<bool>,
    m: nat,
    pos: nat,
    start: int,
    len: nat,
    acc: Seq<int>,
)
    requires
        m <= s.len(),
        acc.len() <= len,
        pos <= m,
        message::parse_deltas(l, s, pos, start, len, acc) is Ok,
    ensures
        message::parse_deltas(l, s.take(m as int), pos, start, len, acc) == if pos + (len
            - acc.len()) * l.delta_bits <= m {
            message::parse_deltas(l, s, pos, start, len, acc)
        } else {
            Err(WireError::Truncated)
        },
        message::parse_deltas(l, s, pos, start, len, acc)->Ok_0.len() == len,
    decreases len - acc.len(),
{
    reveal(message::parse_deltas);
    let w = l.delta_bits as nat;
    if acc.len() < len {
        lemma_read_prefix(s, m, pos, w);
        let k = len - acc.len();
        assert(k * w == (k - 1) * w + w) by (nonlinear_arith);
        assert((k - 1) * w >= 0) by (nonlinear_arith)
            requires
                k >= 1,
                w >= 0,
        ;
        if pos + w <= m {
            let c = bit_io::read(s, pos, w)->0;
            lemma_deltas_prefix(
                l,
                s,
                m,
                pos + w,
                start,
                len,
                acc.push(c - (message::modulus(l) - 1)),
            );
        } else {
            lemma_deltas_len(l, s, pos, start, len, acc);
        }
    } else {
        assert(0 * l.delta_bits == 0) by (nonlinear_arith);
    }
}

proof fn lemma_deltas_len(
    l: DeltaWireLayout,
    s: Seq<bool>,
    pos: nat,
    start: int,
    len: nat,
    acc: Seq<int>,
)
    requires
        acc.len() <= len,
    ensures
        message::parse_deltas(l, s, pos, start, len, acc) matches Ok(d) ==> d.len() == len,
    decreases len - acc.len(),
{
    reveal(message::parse_deltas);
    if acc.len() < len {
        if let Some(c) = bit_io::read(s, pos, l.delta_bits as nat) {
            lemma_deltas_len(
                l,
                s,
                pos + l.delta_bits as nat,
                start,
                len,
                acc.push(c - (message::modulus(l) - 1)),
            );
        }
    }
}

proof fn lemma_run_prefix(
    l: DeltaWireLayout,
    s: Seq<bool>,
    m: nat,
    pos: nat,
    prev: Seq<message::Run>,
)
    requires
        m <= s.len(),
        pos <= m,
        message::parse_run(l, s, pos, prev) is Ok,
    ensures
        message::parse_run(l, s.take(m as int), pos, prev) == if pos + message::run_len_bits(
            l,
            message::parse_run(l, s, pos, prev)->Ok_0.deltas.len(),
        ) <= m {
            message::parse_run(l, s, pos, prev)
        } else {
            Err(WireError::Truncated)
        },
{
    reveal(message::parse_run);
    let ow = l.offset_bits as nat;
    lemma_read_prefix(s, m, pos, ow);
    lemma_read_prefix(s, m, pos + ow, ow);
    let start = bit_io::read(s, pos, ow)->0;
    let len = bit_io::read(s, pos + ow, ow)->0 + 1;
    lemma_deltas_len(l, s, pos + 2 * ow, start as int, len, Seq::empty());
    assert(len * l.delta_bits >= 0) by (nonlinear_arith)
        requires
            len >= 0,
            l.delta_bits >= 0,
    ;
    if pos + 2 * ow <= m {
        lemma_deltas_prefix(l, s, m, pos + 2 * ow, start as int, len, Seq::empty());
    }
}

proof fn lemma_runs_prefix(
    l: DeltaWireLayout,
    s: Seq<bool>,
    m: nat,
    pos: nat,
    acc: Seq<message::Run>,
)
    requires
        m <= s.len(),
        pos <= m,
        message::parse_runs(l, s, pos, acc) is Ok,
    ensures
        message::parse_runs(l, s.take(m as int), pos, acc) == if (message::parse_runs(
            l,
            s,
            pos,
            acc,
        )->Ok_0).1 <= m {
            message::parse_runs(l, s, pos, acc)
        } else {
            Err(WireError::Truncated)
        },
    decreases s.len() - pos,
{
    reveal(message::parse_runs);
    lemma_run_prefix(l, s, m, pos, acc);
    message::lemma_parse_runs_advances(l, s, pos, acc);
    let r = message::parse_run(l, s, pos, acc)->Ok_0;
    let after = pos + message::run_len_bits(l, r.deltas.len());
    lemma_read_prefix(s, m, after, 1);
    let more = bit_io::read(s, after, 1)->0 != 0;
    if more {
        message::lemma_parse_runs_advances(l, s, after + 1, acc.push(r));
        if after + 1 <= m {
            lemma_runs_prefix(l, s, m, after + 1, acc.push(r));
        }
    }
}

proof fn lemma_row_prefix(
    l: DeltaWireLayout,
    s: Seq<bool>,
    m: nat,
    pos: nat,
    prev: Seq<message::Row>,
)
    requires
        m <= s.len(),
        pos <= m,
        message::parse_row(l, s, pos, prev) is Ok,
    ensures
        message::parse_row(l, s.take(m as int), pos, prev) == if (match message::parse_row(
            l,
            s,
            pos,
            prev,
        )->Ok_0 {
            Some((_, after)) => after,
            None => pos + 1,
        }) <= m {
            message::parse_row(l, s, pos, prev)
        } else {
            Err(WireError::Truncated)
        },
{
    reveal(message::parse_row);
    let bw = l.bucket_bits as nat;
    lemma_read_prefix(s, m, pos, 1);
    if bit_io::read(s, pos, 1)->0 != 0 {
        lemma_read_prefix(s, m, pos + 1, bw);
        message::lemma_parse_runs_advances(l, s, pos + 1 + bw, Seq::empty());
        if pos + 1 + bw <= m {
            lemma_runs_prefix(l, s, m, pos + 1 + bw, Seq::empty());
        }
    }
}

proof fn lemma_rows_prefix(
    l: DeltaWireLayout,
    s: Seq<bool>,
    m: nat,
    pos: nat,
    acc: Seq<message::Row>,
)
    requires
        m <= s.len(),
        pos <= m,
        message::parse_rows(l, s, pos, acc) is Ok,
        (message::parse_rows(l, s, pos, acc)->Ok_0).1 > m,
    ensures
        message::parse_rows(l, s.take(m as int), pos, acc) == Err::<
            (Seq<message::Row>, nat),
            WireError,
        >(WireError::Truncated),
    decreases s.len() - pos,
{
    reveal(message::parse_rows);
    lemma_row_prefix(l, s, m, pos, acc);
    if let Ok(Some((row, after))) = message::parse_row(l, s, pos, acc) {
        message::lemma_parse_row_advances(l, s, pos, acc);
        if after <= m {
            lemma_rows_prefix(l, s, m, after, acc.push(row));
        }
    }
}

/// Cutting an encoded bundle short anywhere before its last bit is noticed as such.
pub proof fn law_cut_short<B: IndexPirBackend>(b: HintDeltaBundle<B>, m: nat)
    requires
        b.params.valid(),
        in_order(b.params, b.edits()),
        m < b.wire_bits().len(),
    ensures
        message::parse_message(
            DeltaWireLayout::of(b.params),
            bits::padded(b.wire_bits()).take(m as int),
        ) == Err::<(u64, Seq<message::Row>), WireError>(WireError::Truncated),
{
    let l = DeltaWireLayout::of(b.params);
    let x = b.wire_bits();
    let s = bits::padded(x);
    law_canonical_is_in_order(b);
    hint_delta::lemma_layout(b.params);
    b.lemma_wire_bits_len();
    assert(s.take(x.len() as int) =~= x);
    lemma_message_end(l, b.epoch, b.rows(), s);
    lemma_read_prefix(s, m, 0, 64);
    if m >= 64 {
        lemma_rows_prefix(l, s, m, 64, Seq::empty());
    }
}

// ---------------------------------------------------------------- counts
/// Counts add up, row by row and segment by segment.
pub proof fn law_counts_add_up(
    segs: Seq<Edits>,
    edits: Edits,
    row: (u32, sparse::Cells),
    rows: Seq<message::Row>,
    next: message::Row,
)
    ensures
        sparse::listed_rows(Seq::empty()) == 0,
        sparse::all_cells(Seq::empty()) == 0,
        message::total_runs(Seq::empty()) == 0,
        message::total_cells(Seq::empty()) == 0,
        sparse::listed_rows(segs.push(edits)) == sparse::listed_rows(segs) + edits.len(),
        sparse::all_cells(segs.push(Seq::empty())) == sparse::all_cells(segs),
        sparse::all_cells(segs.push(edits.push(row))) == sparse::all_cells(segs.push(edits))
            + row.1.len(),
        message::total_runs(rows.push(next)) == message::total_runs(rows) + next.runs.len(),
        message::total_cells(rows.push(next)) == message::total_cells(rows) + message::runs_cells(
            next.runs,
        ),
{
    assert(segs.push(edits).drop_last() =~= segs);
    assert(segs.push(edits.push(row)).drop_last() =~= segs);
    assert(segs.push(Seq::<(u32, sparse::Cells)>::empty()).drop_last() =~= segs);
    assert(edits.push(row).drop_last() =~= edits);
    assert(rows.push(next).drop_last() =~= rows);
}

/// Runs count every delta that they carry, zeros too.
pub proof fn law_run_cells_add_up(runs: Seq<message::Run>, r: message::Run)
    ensures
        message::runs_cells(Seq::empty()) == 0,
        message::runs_cells(runs.push(r)) == message::runs_cells(runs) + r.deltas.len(),
{
    assert(runs.push(r).drop_last() =~= runs);
}

/// An encoded bundle takes 65 bits, one bit more than a bucket's width per row, one bit more
/// than two offsets per run, and one bit more than a cell per delta.
pub proof fn law_encoded_length<B: IndexPirBackend>(b: HintDeltaBundle<B>)
    requires
        b.params.valid(),
        in_order(b.params, b.edits()),
    ensures
        ({
            let l = DeltaWireLayout::of(b.params);
            &&& b.rows().len() == sparse::listed_rows(b.edits())
            &&& b.wire_bits().len() == 65 + b.rows().len() * (1 + l.bucket_bits)
                + message::total_runs(b.rows()) * (2 * l.offset_bits + 1) + message::total_cells(
                b.rows(),
            ) * (b.params.plaintext_bits + 1)
        }),
{
    law_canonical_is_in_order(b);
    b.lemma_wire_bits_len();
    hint_delta::lemma_layout(b.params);
    sparse::lemma_listed_rows(DeltaWireLayout::of(b.params), b.edits());
}

// ---------------------------------------------------------------- runs
/// Cells with at most the maximal gap between them share a run, in which the gap is filled with
/// zeros; any other cell starts a run of its own.
pub proof fn law_runs_by_gap(max_gap: nat, cells: sparse::Cells, c: (u16, i64))
    requires
        cells.len() > 0,
        cells.last().0 < c.0,
    ensures
        ({
            let before = sparse::split(max_gap, cells);
            let after = sparse::split(max_gap, cells.push(c));
            let gap = c.0 - cells.last().0 - 1;
            &&& sparse::split(max_gap, seq![c]) == seq![
                message::Run { start: c.0 as int, deltas: seq![c.1 as int] },
            ]
            &&& gap > max_gap ==> after == before.push(
                message::Run { start: c.0 as int, deltas: seq![c.1 as int] },
            )
            &&& gap <= max_gap ==> after == before.drop_last().push(
                message::Run {
                    start: before.last().start,
                    deltas: (before.last().deltas + Seq::new(gap as nat, |i: int| 0int)).push(
                        c.1 as int,
                    ),
                },
            )
        }),
{
    let all = cells.push(c);
    assert(all.drop_last() =~= cells);
    assert(all.last() == c);
    assert(all[all.len() - 2] == cells.last());
    let one = seq![c];
    assert(one.drop_last() =~= Seq::<(u16, i64)>::empty());
    assert(sparse::split(max_gap, Seq::empty()) =~= Seq::<message::Run>::empty());
    assert(sparse::split(max_gap, one) =~= seq![
        message::Run { start: c.0 as int, deltas: seq![c.1 as int] },
    ]);
}

/// A span of cells is the run from its first cell to its last: it starts where the first cell
/// lies, covers everything up to the last, and holds each of its cells at its place.
pub proof fn law_span(cells: sparse::Cells, span: RunSpan, r: message::Run)
    requires
        forall|x: int, y: int| 0 <= x < y < cells.len() ==> cells[x].0 < cells[y].0,
        hint_delta::span_of(cells, span, r),
    ensures
        span.from < span.to <= cells.len(),
        span.start == cells[span.from as int].0,
        span.len == cells[span.to - 1].0 - cells[span.from as int].0 + 1,
        r.start == span.start,
        r.deltas.len() == span.len,
{
    let part = cells.subrange(span.from as int, span.to as int);
    assert forall|x: int, y: int| 0 <= x < y < part.len() implies part[x].0 < part[y].0 by {
        assert(cells[span.from + x].0 < cells[span.from + y].0);
    }
    sparse::lemma_merged_len(part);
}

/// Rows, runs and deltas have fixed lengths: a row takes one bit more than a bucket, a run one
/// bit more than two offsets, and the epoch and the end take 65 bits.
pub proof fn law_length_formula(l: DeltaWireLayout, rows: nat, runs: nat, cells: nat)
    ensures
        l.spec_bits(rows, runs, cells) == 65 + rows * (1 + l.bucket_bits) + runs * (2
            * l.offset_bits + 1) + cells * l.delta_bits,
{
}

} // verus!
