//! The bundle of sparse hint edits that one mutation produces, and its encoding.
use core::marker::PhantomData;
use vstd::arithmetic::power2::*;
use vstd::prelude::*;

use crate::backend::IndexPirBackend;
use crate::bits;
use crate::geometry;
use crate::geometry::CuckooParams;
use crate::wire::bit_io::{BitReader, BitWriter};
use crate::wire::bit_io;
use crate::wire::codec;
use crate::wire::edit_lists;
use crate::wire::layout;
use crate::wire::layout::DeltaWireLayout;
use crate::wire::message;
use crate::wire::shortest;
use crate::wire::sparse;
use crate::wire::WireError;

verus! {

/// Edited rows of one segment: `(row_in_segment, [(cell_offset, delta)])`.
pub type SegmentRowDeltas = Vec<(u32, Vec<(u16, i64)>)>;

/// The edits of one segment as a sequence.
pub open spec fn edits_view(seg: Seq<(u32, Vec<(u16, i64)>)>) -> sparse::Edits {
    Seq::new(seg.len(), |i: int| (seg[i].0, seg[i].1@))
}

/// The edits of all segments as sequences.
pub open spec fn deltas_view(segs: Seq<SegmentRowDeltas>) -> Seq<sparse::Edits> {
    Seq::new(segs.len(), |j: int| edits_view(segs[j]@))
}

/// Row, run and cell counts of one bundle.
#[derive(Debug, Clone, Copy, PartialEq, Eq, Structural)]
pub struct DeltaWireStats {
    /// Touched rows over all segments.
    pub rows: u64,
    /// Runs over all touched rows.
    pub runs: u64,
    /// Encoded deltas over all runs, bridged zeros counted.
    pub cells: u64,
    /// Non-zero cells.
    pub nonzero_cells: u64,
    /// Encoded length in bits, before padding.
    pub bits: u64,
    /// Encoded length in bytes.
    pub bytes: usize,
}

/// Sparse hint patch produced by one successful mutation.
#[derive(Debug)]
pub struct HintDeltaBundle<B: IndexPirBackend> {
    /// Server epoch after the mutation.
    pub epoch: u64,
    /// Edits by segment.
    pub per_segment_row_deltas: Vec<SegmentRowDeltas>,
    /// Geometry that the edits were folded under; not part of the encoding.
    pub params: CuckooParams,
    /// The backend that the edits are for.
    pub _marker: PhantomData<B>,
}

impl<B: IndexPirBackend> Clone for HintDeltaBundle<B> {
    fn clone(&self) -> (r: Self)
        ensures
            r.epoch == self.epoch,
            r.edits() == self.edits(),
            r.params == self.params,
    {
        HintDeltaBundle {
            epoch: self.epoch,
            per_segment_row_deltas: edit_lists::copy_deltas(&self.per_segment_row_deltas),
            params: self.params,
            _marker: PhantomData,
        }
    }
}

impl<B: IndexPirBackend> PartialEq for HintDeltaBundle<B> {
    fn eq(&self, other: &Self) -> (r: bool) {
        self.epoch == other.epoch && edit_lists::deltas_equal(
            &self.per_segment_row_deltas,
            &other.per_segment_row_deltas,
        ) && self.params == other.params
    }
}

impl<B: IndexPirBackend> vstd::std_specs::cmp::PartialEqSpecImpl for HintDeltaBundle<B> {
    open spec fn obeys_eq_spec() -> bool {
        true
    }

    open spec fn eq_spec(&self, other: &Self) -> bool {
        self.epoch == other.epoch && self.edits() == other.edits() && self.params == other.params
    }
}

impl<B: IndexPirBackend> HintDeltaBundle<B> {
    /// The edits, by segment.
    pub open spec fn edits(self) -> Seq<sparse::Edits> {
        deltas_view(self.per_segment_row_deltas@)
    }

    /// The widths of the encoding.
    pub open spec fn spec_layout(self) -> DeltaWireLayout {
        DeltaWireLayout::of(self.params)
    }

    /// One list per segment, each canonical.
    pub open spec fn canonical(self) -> bool {
        &&& self.edits().len() == self.params.spec_arity()
        &&& sparse::segments_canonical(self.spec_layout(), self.edits())
    }

    /// The rows of the encoded message.
    pub open spec fn rows(self) -> Seq<message::Row> {
        sparse::all_rows(self.spec_layout(), self.edits())
    }

    /// The bits of the encoded message, before padding.
    pub open spec fn wire_bits(self) -> Seq<bool> {
        message::message_bits(self.spec_layout(), self.epoch, self.rows())
    }

    /// Assembles a bundle.
    pub fn new(
        epoch: u64,
        per_segment_row_deltas: Vec<SegmentRowDeltas>,
        params: CuckooParams,
    ) -> (b: Self)
        ensures
            b.epoch == epoch,
            b.per_segment_row_deltas == per_segment_row_deltas,
            b.params == params,
    {
        HintDeltaBundle { epoch, per_segment_row_deltas, params, _marker: PhantomData }
    }

    /// The widths of the encoding that the geometry implies.
    pub fn layout(&self) -> (l: DeltaWireLayout)
        requires
            self.params.has_layout(),
        ensures
            l == self.spec_layout(),
    {
        DeltaWireLayout::for_params(&self.params)
    }

    /// Whether the bundle is in the canonical form that the encoder needs: one list of
    /// rows per segment; rows ascend inside the segment and are not empty; offsets ascend
    /// inside the row; deltas are non-zero and smaller than the modulus.
    pub fn validate(&self, layout: &DeltaWireLayout) -> (ok: bool)
        requires
            self.params.valid(),
            *layout == self.spec_layout(),
        ensures
            ok == self.canonical(),
    {
        if self.per_segment_row_deltas.len() != self.params.arity() {
            return false;
        }
        proof {
            lemma_modulus(*layout);
        }
        let p: i64 = 1i64 << layout.plaintext_bits;
        let ghost edits = self.edits();
        let mut j: usize = 0;
        while j < self.per_segment_row_deltas.len()
            invariant
                j <= self.per_segment_row_deltas@.len(),
                edits == self.edits(),
                edits.len() == self.per_segment_row_deltas@.len() == self.params.spec_arity(),
                *layout == self.spec_layout(),
                p == message::modulus(*layout),
                forall|k: int|
                    0 <= k < j ==> sparse::edits_canonical(*layout, #[trigger] edits[k]),
            decreases self.per_segment_row_deltas@.len() - j,
        {
            let ok: bool = validate_segment(&self.per_segment_row_deltas[j], layout, p);
            assert(edits[j as int] == edits_view(self.per_segment_row_deltas@[j as int]@));
            if !ok {
                return false;
            }
            j = j + 1;
        }
        true
    }
}

/// The cell modulus of a valid geometry fits in an `i64`.
proof fn lemma_modulus(l: DeltaWireLayout)
    requires
        l.plaintext_bits <= 62,
    ensures
        (1i64 << l.plaintext_bits) == message::modulus(l),
        (1u64 << l.plaintext_bits) == message::modulus(l),
        0 < message::modulus(l) <= 0x4000_0000_0000_0000,
{
    lemma2_to64();
    lemma2_to64_rest();
    let k = l.plaintext_bits as u64;
    if k < 62 {
        lemma_pow2_strictly_increases(k as nat, 62);
    }
    lemma_pow2_pos(k as nat);
    vstd::bits::lemma_u64_shl_is_mul(1u64, k);
    let kk = l.plaintext_bits;
    assert((1u64 << kk) <= 0x4000_0000_0000_0000u64 && (1i64 << kk) == (1u64 << kk)) by (bit_vector)
        requires
            kk <= 62,
    ;
    assert(1u64 << kk == 1u64 << k);
}

/// Whether the edits of one segment are canonical.
fn validate_segment(seg: &SegmentRowDeltas, layout: &DeltaWireLayout, p: i64) -> (ok: bool)
    requires
        p == message::modulus(*layout),
    ensures
        ok == sparse::edits_canonical(*layout, edits_view(seg@)),
{
    let ghost edits = edits_view(seg@);
    let mut i: usize = 0;
    while i < seg.len()
        invariant
            i <= seg@.len(),
            edits == edits_view(seg@),
            p == message::modulus(*layout),
            forall|k: int|
                0 <= k < i ==> {
                    &&& (#[trigger] edits[k]).0 < layout.segment_size
                    &&& edits[k].1.len() > 0
                    &&& sparse::cells_canonical(*layout, edits[k].1)
                },
            forall|a: int, b: int| 0 <= a < b < i ==> edits[a].0 < edits[b].0,
        decreases seg@.len() - i,
    {
        let row: u32 = seg[i].0;
        let cells: &Vec<(u16, i64)> = &seg[i].1;
        assert(edits[i as int] == (row, cells@));
        if row >= layout.segment_size {
            return false;
        }
        if i > 0 && row <= seg[i - 1].0 {
            assert(edits[i - 1].0 >= edits[i as int].0);
            return false;
        }
        if cells.len() == 0 || !validate_cells(cells, layout, p) {
            return false;
        }
        proof {
            assert forall|a: int, b: int| 0 <= a < b < i + 1 implies edits[a].0 < edits[b].0 by {
                if b == i && a < i - 1 {
                    assert(edits[a].0 < edits[i - 1].0);
                }
            }
        }
        i = i + 1;
    }
    true
}

/// Whether the edits of one row are canonical.
fn validate_cells(cells: &Vec<(u16, i64)>, layout: &DeltaWireLayout, p: i64) -> (ok: bool)
    requires
        p == message::modulus(*layout),
    ensures
        ok == sparse::cells_canonical(*layout, cells@),
{
    let mut i: usize = 0;
    while i < cells.len()
        invariant
            i <= cells@.len(),
            p == message::modulus(*layout),
            forall|k: int|
                0 <= k < i ==> {
                    &&& (#[trigger] cells@[k]).0 < layout.row_width
                    &&& cells@[k].1 != 0
                    &&& -message::modulus(*layout) < cells@[k].1 < message::modulus(*layout)
                },
            forall|a: int, b: int| 0 <= a < b < i ==> cells@[a].0 < cells@[b].0,
        decreases cells@.len() - i,
    {
        let offset: u16 = cells[i].0;
        let delta: i64 = cells[i].1;
        let ghost here = cells@[i as int];
        if offset as u32 >= layout.row_width {
            return false;
        }
        if i > 0 && offset <= cells[i - 1].0 {
            assert(cells@[i - 1].0 >= cells@[i as int].0);
            return false;
        }
        if delta == 0 || delta >= p || delta <= -p {
            return false;
        }
        proof {
            assert forall|a: int, b: int| 0 <= a < b < i + 1 implies cells@[a].0 < cells@[b].0 by {
                if b == i && a < i - 1 {
                    assert(cells@[a].0 < cells@[i - 1].0);
                }
            }
        }
        i = i + 1;
    }
    true
}

/// One run of a row: where it starts, how many cells it covers, and which of the row's
/// non-zero cells lie in it.
#[derive(Debug, Clone, Copy, PartialEq, Eq, Structural)]
pub struct RunSpan {
    /// Offset of the first cell.
    pub start: u16,
    /// Cells covered, bridged zeros counted.
    pub len: u32,
    /// First non-zero cell.
    pub from: usize,
    /// One past the last non-zero cell.
    pub to: usize,
}

/// The span covers the cells of run `r`.
pub open spec fn span_of(cells: sparse::Cells, span: RunSpan, r: message::Run) -> bool {
    &&& span.from < span.to <= cells.len()
    &&& r == sparse::span_run(cells, span.from as int, span.to as int)
    &&& span.start == r.start
    &&& span.len == r.deltas.len()
}

/// Splits the cells of one row into maximal runs: neighbours with at most `max_gap` zero
/// cells between them share a run.
pub fn row_runs(cells: &Vec<(u16, i64)>, max_gap: u32) -> (spans: Vec<RunSpan>)
    requires
        sparse::ascending(cells@),
    ensures
        spans@.len() == sparse::split(max_gap as nat, cells@).len(),
        forall|t: int|
            0 <= t < spans@.len() ==> span_of(
                cells@,
                #[trigger] spans@[t],
                sparse::split(max_gap as nat, cells@)[t],
            ),
{
    let mut spans: Vec<RunSpan> = Vec::new();
    let ghost g = max_gap as nat;
    let mut i: usize = 0;
    proof {
        assert(cells@.take(0) =~= Seq::<(u16, i64)>::empty());
    }
    while i < cells.len()
        invariant
            i <= cells@.len(),
            g == max_gap,
            sparse::ascending(cells@),
            spans@.len() == sparse::split(g, cells@.take(i as int)).len(),
            i > 0 ==> spans@.len() > 0 && spans@.last().to == i,
            i == 0 ==> spans@.len() == 0,
            forall|t: int|
                0 <= t < spans@.len() ==> span_of(
                    cells@,
                    #[trigger] spans@[t],
                    sparse::split(g, cells@.take(i as int))[t],
                ),
        decreases cells@.len() - i,
    {
        let offset: u16 = cells[i].0;
        let ghost before = sparse::split(g, cells@.take(i as int));
        let ghost here = cells@.take(i + 1);
        let ghost n = i as int;
        proof {
            assert(here.drop_last() =~= cells@.take(n));
            assert(here.last() == cells@[n]);
            if i > 0 {
                assert(cells@[n - 1].0 < cells@[n].0);
                assert(here[n - 1] == cells@[n - 1]);
            }
        }
        if i == 0 || offset as u32 - cells[i - 1].0 as u32 - 1 > max_gap {
            let ghost r = message::Run { start: offset as int, deltas: seq![cells@[n].1 as int] };
            spans.push(RunSpan { start: offset, len: 1, from: i, to: i + 1 });
            proof {
                assert(sparse::starts_run(g, here, here.len() - 1));
                assert(sparse::split(g, here) == before.push(r));
                assert(cells@.subrange(n, n + 1) =~= seq![cells@[n]]);
                assert(span_of(cells@, spans@.last(), r));
            }
        } else {
            let k: usize = spans.len() - 1;
            let span: RunSpan = spans[k];
            let ghost part = cells@.subrange(span.from as int, n + 1);
            proof {
                assert(span_of(cells@, spans@[k as int], before[k as int]));
                let sub = cells@.subrange(span.from as int, n);
                assert(part.drop_last() =~= sub);
                assert forall|a: int, b: int| 0 <= a < b < part.len() implies part[a].0
                    < part[b].0 by {
                    assert(cells@[span.from + a].0 < cells@[span.from + b].0);
                }
                sparse::lemma_merged_len(part);
                let m = part.len() as int;
                assert(part[m - 1] == cells@[n]);
                assert(part[m - 2] == cells@[n - 1]);
                assert(part[0] == cells@[span.from as int]);
            }
            let len: u32 = (offset - span.start) as u32 + 1;
            spans.set(k, RunSpan { start: span.start, len, from: span.from, to: i + 1 });
            proof {
                assert(!sparse::starts_run(g, here, here.len() - 1));
                let gap = (cells@[n].0 - cells@[n - 1].0 - 1) as nat;
                let r = message::Run {
                    start: before.last().start,
                    deltas: (before.last().deltas + sparse::zeros(gap)).push(cells@[n].1 as int),
                };
                assert(sparse::split(g, here) == before.drop_last().push(r));
                assert(r.deltas == sparse::merged(part));
                assert(span_of(cells@, spans@[k as int], r));
            }
        }
        i = i + 1;
    }
    proof {
        assert(cells@.take(cells@.len() as int) =~= cells@);
    }
    spans
}

/// What the widths of a valid geometry are good for.
pub proof fn lemma_layout(params: CuckooParams)
    requires
        params.valid(),
    ensures
        codec::layout_ok(DeltaWireLayout::of(params)),
        DeltaWireLayout::of(params).segment_size == params.spec_segment_size(),
        DeltaWireLayout::of(params).row_width == params.spec_row_width(),
        DeltaWireLayout::of(params).bucket_bits <= 32,
        DeltaWireLayout::of(params).offset_bits <= 31,
        params.spec_arity() * DeltaWireLayout::of(params).segment_size == params.num_buckets,
        shortest::gap_ok(DeltaWireLayout::of(params)),
{
    let l = DeltaWireLayout::of(params);
    lemma2_to64();
    layout::lemma_index_width(params.num_buckets as nat, 32);
    let a = params.spec_arity() as int;
    let n = params.num_buckets as int;
    vstd::arithmetic::div_mod::lemma_fundamental_div_mod(n, a);
    assert(a * (n / a) == n);
    vstd::arithmetic::div_mod::lemma_div_pos_is_pos(n, a);
    assert(n / a <= n) by (nonlinear_arith)
        requires
            a * (n / a) == n,
            n / a >= 0,
            a >= 1,
    ;
    assert(params.spec_row_width() >= 0) by {
        let t = params.fingerprint_bits + params.value_bits + params.plaintext_bits - 1;
        vstd::arithmetic::div_mod::lemma_div_pos_is_pos(t, params.plaintext_bits as int);
        vstd::arithmetic::mul::lemma_mul_nonnegative(
            params.bucket_size as int,
            params.spec_cells_per_slot(),
        );
    }
    layout::lemma_index_width(params.spec_row_width() as nat, 31);
    let cost = 2 * layout::index_width(params.spec_row_width() as nat) as int + 1;
    vstd::arithmetic::div_mod::lemma_div_is_ordered_by_denominator(
        cost,
        1,
        params.plaintext_bits + 1,
    );
    vstd::arithmetic::div_mod::lemma_div_pos_is_pos(cost, params.plaintext_bits + 1);
}

proof fn lemma_runs_cells_take(runs: Seq<message::Run>, t: int)
    requires
        0 <= t <= runs.len(),
    ensures
        message::runs_cells(runs.take(t)) <= message::runs_cells(runs),
        t < runs.len() ==> message::runs_cells(runs.take(t + 1)) == message::runs_cells(
            runs.take(t),
        ) + runs[t].deltas.len(),
    decreases runs.len(),
{
    if t < runs.len() {
        assert(runs.take(t + 1).drop_last() =~= runs.take(t));
        let init = runs.drop_last();
        lemma_runs_cells_take(init, t);
        assert(init.take(t) =~= runs.take(t));
    } else {
        assert(runs.take(t) =~= runs);
    }
}

impl<B: IndexPirBackend> HintDeltaBundle<B> {
    /// The rows of the first `j` segments and of the first `i` edits of the next one.
    pub open spec fn rows_before(self, j: int, i: int) -> Seq<message::Row> {
        sparse::all_rows(self.spec_layout(), self.edits().take(j)) + sparse::segment_rows(
            self.spec_layout(),
            j,
            self.edits()[j],
        ).take(i)
    }

    /// The encoded length in closed form.
    pub proof fn lemma_wire_bits_len(self)
        requires
            self.params.valid(),
            self.canonical(),
        ensures
            message::rows_valid(self.spec_layout(), self.rows()),
            self.wire_bits().len() == self.spec_layout().spec_bits(
                self.rows().len(),
                message::total_runs(self.rows()),
                message::total_cells(self.rows()),
            ),
    {
        let l = self.spec_layout();
        lemma_layout(self.params);
        sparse::lemma_all_rows(l, self.edits());
        let rows = self.rows();
        assert forall|i: int| 0 <= i < rows.len() implies (#[trigger] rows[i]).runs.len() > 0 by {
            assert(message::row_valid(l, rows[i]));
        }
        sparse::lemma_rows_bits_len(l, rows);
    }

    /// Counts and bits of a prefix of the rows stay below those of all rows.
    proof fn lemma_rows_before(self, j: int, i: int)
        requires
            self.params.valid(),
            self.canonical(),
            0 <= j < self.edits().len(),
            0 <= i <= self.edits()[j].len(),
        ensures
            self.rows_before(j, i).len() <= self.wire_bits().len(),
            message::total_runs(self.rows_before(j, i)) <= self.wire_bits().len(),
            message::total_cells(self.rows_before(j, i)) <= self.wire_bits().len(),
            65 + message::rows_bits(self.spec_layout(), self.rows_before(j, i)).len()
                <= self.wire_bits().len(),
    {
        let l = self.spec_layout();
        let p = self.rows_before(j, i);
        let all = self.rows();
        self.lemma_wire_bits_len();
        sparse::lemma_all_rows_prefix(l, self.edits(), j, i);
        let n = p.len() as int;
        let rest = all.skip(n);
        assert(all.take(n) == p);
        assert(all =~= p + rest);
        sparse::lemma_counts_append(p, rest);
        codec::lemma_rows_bits_append(l, p, rest);
        let rows = all.len();
        let runs = message::total_runs(all);
        let cells = message::total_cells(all);
        assert(rows * (1 + l.bucket_bits as nat) >= rows) by (nonlinear_arith);
        assert(runs * (2 * l.offset_bits as nat + 1) >= runs) by (nonlinear_arith);
        assert(cells * l.delta_bits as nat >= cells) by (nonlinear_arith)
            requires
                l.delta_bits >= 1,
        ;
    }

    proof fn lemma_rows_before_step(self, j: int, i: int)
        requires
            0 <= j < self.edits().len(),
            0 <= i < self.edits()[j].len(),
        ensures
            self.rows_before(j, i + 1) == self.rows_before(j, i).push(
                sparse::segment_rows(self.spec_layout(), j, self.edits()[j])[i],
            ),
            self.rows_before(j, i + 1).drop_last() == self.rows_before(j, i),
            self.rows_before(j, i + 1).last() == sparse::segment_rows(
                self.spec_layout(),
                j,
                self.edits()[j],
            )[i],
    {
        let rows = sparse::segment_rows(self.spec_layout(), j, self.edits()[j]);
        assert(rows.take(i + 1) =~= rows.take(i).push(rows[i]));
        assert(self.rows_before(j, i + 1) =~= self.rows_before(j, i).push(rows[i]));
        assert(self.rows_before(j, i + 1).drop_last() =~= self.rows_before(j, i));
    }

    proof fn lemma_rows_before_ends(self, j: int)
        requires
            0 <= j < self.edits().len(),
        ensures
            self.rows_before(j, 0) == sparse::all_rows(self.spec_layout(), self.edits().take(j)),
            self.rows_before(j, self.edits()[j].len() as int) == sparse::all_rows(
                self.spec_layout(),
                self.edits().take(j + 1),
            ),
            sparse::all_cells(self.edits().take(j + 1)) == sparse::all_cells(self.edits().take(j))
                + sparse::edits_cells(self.edits()[j]),
    {
        let l = self.spec_layout();
        let e = self.edits();
        let rows = sparse::segment_rows(l, j, e[j]);
        assert(rows.take(0) =~= Seq::<message::Row>::empty());
        assert(rows.take(rows.len() as int) =~= rows);
        assert(self.rows_before(j, 0) =~= sparse::all_rows(l, e.take(j)));
        assert(e.take(j + 1).drop_last() =~= e.take(j));
        assert(e.take(j + 1).last() == e[j]);
    }

    /// Row, run and cell counts, and the exact encoded size.
    pub fn wire_stats(&self) -> (stats: DeltaWireStats)
        requires
            self.params.valid(),
            self.canonical(),
            self.wire_bits().len() + 7 <= usize::MAX,
        ensures
            stats.rows == self.rows().len(),
            stats.rows == sparse::listed_rows(self.edits()),
            stats.runs == message::total_runs(self.rows()),
            stats.cells == message::total_cells(self.rows()),
            stats.nonzero_cells == sparse::all_cells(self.edits()),
            stats.bits == self.wire_bits().len(),
            stats.bits == self.spec_layout().spec_bits(
                stats.rows as nat,
                stats.runs as nat,
                stats.cells as nat,
            ),
            stats.bytes == geometry::ceil_div(stats.bits as int, 8),
    {
        let l: DeltaWireLayout = self.layout();
        let mut rows: u64 = 0;
        let mut runs: u64 = 0;
        let mut cells: u64 = 0;
        let mut nonzero_cells: u64 = 0;
        let ghost e = self.edits();
        let ghost total = self.wire_bits().len();
        let mut j: usize = 0;
        proof {
            assert(e.take(0) =~= Seq::<sparse::Edits>::empty());
            assert(e.len() == self.per_segment_row_deltas@.len());
        }
        while j < self.per_segment_row_deltas.len()
            invariant
                self.params.valid(),
                self.canonical(),
                l == self.spec_layout(),
                e == self.edits(),
                e.len() == self.per_segment_row_deltas@.len(),
                total == self.wire_bits().len() <= usize::MAX - 7,
                j <= e.len(),
                rows == sparse::all_rows(l, e.take(j as int)).len(),
                runs == message::total_runs(sparse::all_rows(l, e.take(j as int))),
                cells == message::total_cells(sparse::all_rows(l, e.take(j as int))),
                nonzero_cells == sparse::all_cells(e.take(j as int)) <= cells,
            decreases e.len() - j,
        {
            let seg: &SegmentRowDeltas = &self.per_segment_row_deltas[j];
            let ghost cells_before = nonzero_cells;
            proof {
                self.lemma_rows_before_ends(j as int);
                assert(e[j as int] == edits_view(seg@));
                assert(e[j as int].take(0) =~= Seq::<(u32, Seq<(u16, i64)>)>::empty());
            }
            let mut i: usize = 0;
            while i < seg.len()
                invariant
                    self.params.valid(),
                    self.canonical(),
                    l == self.spec_layout(),
                    e == self.edits(),
                    total == self.wire_bits().len() <= usize::MAX - 7,
                    j < e.len(),
                    e[j as int] == edits_view(seg@),
                    i <= seg@.len(),
                    rows == self.rows_before(j as int, i as int).len(),
                    runs == message::total_runs(self.rows_before(j as int, i as int)),
                    cells == message::total_cells(self.rows_before(j as int, i as int)),
                    nonzero_cells == cells_before + sparse::edits_cells(
                        e[j as int].take(i as int),
                    ),
                    nonzero_cells <= cells,
                decreases seg@.len() - i,
            {
                let row_cells: &Vec<(u16, i64)> = &seg[i].1;
                let ghost row = sparse::segment_rows(l, j as int, e[j as int])[i as int];
                proof {
                    assert(sparse::edits_canonical(l, e[j as int]));
                    assert(e[j as int][i as int].1 == row_cells@);
                    assert(sparse::ascending(row_cells@));
                    sparse::lemma_cells_le_runs_cells(l.max_gap as nat, row_cells@);
                    self.lemma_rows_before(j as int, i + 1);
                    self.lemma_rows_before_step(j as int, i as int);
                    let t = e[j as int].take(i + 1);
                    assert(t.drop_last() =~= e[j as int].take(i as int));
                    assert(t.last() == e[j as int][i as int]);
                }
                rows = rows + 1;
                nonzero_cells = nonzero_cells + row_cells.len() as u64;
                let spans: Vec<RunSpan> = row_runs(row_cells, l.max_gap);
                let ghost all = row.runs;
                let ghost base = cells;
                runs = runs + spans.len() as u64;
                let mut t: usize = 0;
                proof {
                    assert(all.take(0) =~= Seq::<message::Run>::empty());
                }
                while t < spans.len()
                    invariant
                        t <= spans@.len(),
                        spans@.len() == all.len(),
                        forall|k: int|
                            0 <= k < spans@.len() ==> span_of(
                                row_cells@,
                                #[trigger] spans@[k],
                                all[k],
                            ),
                        base + message::runs_cells(all) <= usize::MAX,
                        cells == base + message::runs_cells(all.take(t as int)),
                    decreases spans@.len() - t,
                {
                    proof {
                        lemma_runs_cells_take(all, t as int);
                        lemma_runs_cells_take(all, t + 1);
                        assert(span_of(row_cells@, spans@[t as int], all[t as int]));
                    }
                    cells = cells + spans[t].len as u64;
                    t = t + 1;
                }
                proof {
                    assert(all.take(all.len() as int) =~= all);
                }
                i = i + 1;
            }
            proof {
                let t = e[j as int];
                assert(t.take(t.len() as int) =~= t);
            }
            j = j + 1;
        }
        proof {
            assert(e.take(e.len() as int) =~= e);
            self.lemma_wire_bits_len();
            sparse::lemma_listed_rows(l, e);
        }
        let bits: u64 = l.bits(rows, runs, cells);
        let bytes: usize = l.bytes(rows, runs, cells) as usize;
        DeltaWireStats { rows, runs, cells, nonzero_cells, bits, bytes }
    }

    /// Exact encoded size in bytes.
    pub fn wire_byte_size(&self) -> (n: usize)
        requires
            self.params.valid(),
            self.canonical(),
            self.wire_bits().len() + 7 <= usize::MAX,
        ensures
            n == geometry::ceil_div(self.wire_bits().len() as int, 8),
    {
        self.wire_stats().bytes
    }
}

proof fn lemma_deltas_bits_push(l: DeltaWireLayout, d: Seq<int>, x: int)
    ensures
        message::deltas_bits(l, d.push(x)) == message::deltas_bits(l, d) + bits::field(
            message::code(l, x),
            l.delta_bits as nat,
        ),
{
    assert(d.push(x).drop_last() =~= d);
}

/// Appends `n` zero deltas.
fn write_zero_deltas(
    w: &mut BitWriter,
    layout: &DeltaWireLayout,
    n: u32,
    p_minus_1: u64,
    done: Ghost<Seq<int>>,
    base: Ghost<Seq<bool>>,
)
    requires
        old(w).wf(),
        layout.delta_bits <= 64,
        p_minus_1 == message::modulus(*layout) - 1,
        old(w).written() == base@ + message::deltas_bits(*layout, done@),
        base@.len() + (done@.len() + n) * layout.delta_bits as nat <= 8 * old(w).byte_len(),
    ensures
        final(w).wf(),
        final(w).byte_len() == old(w).byte_len(),
        final(w).written() == base@ + message::deltas_bits(
            *layout,
            done@ + sparse::zeros(n as nat),
        ),
{
    let mut k: u32 = 0;
    let ghost db = layout.delta_bits as nat;
    proof {
        assert(done@ + sparse::zeros(0) =~= done@);
    }
    while k < n
        invariant
            k <= n,
            w.wf(),
            db == layout.delta_bits <= 64,
            p_minus_1 == message::modulus(*layout) - 1,
            w.byte_len() == old(w).byte_len(),
            w.written() == base@ + message::deltas_bits(
                *layout,
                done@ + sparse::zeros(k as nat),
            ),
            base@.len() + (done@.len() + n) * db <= 8 * old(w).byte_len(),
        decreases n - k,
    {
        let ghost d = done@ + sparse::zeros(k as nat);
        proof {
            codec::lemma_deltas_bits_len(*layout, d);
            assert((d.len() + 1) * db <= (done@.len() + n) * db) by (nonlinear_arith)
                requires
                    d.len() + 1 <= done@.len() + n,
            ;
            assert((d.len() + 1) * db == d.len() * db + db) by (nonlinear_arith);
        }
        w.write_bits(p_minus_1, layout.delta_bits);
        proof {
            lemma_deltas_bits_push(*layout, d, 0);
            assert(d.push(0) =~= done@ + sparse::zeros((k + 1) as nat));
            let f = bits::field(message::code(*layout, 0), db);
            assert((base@ + message::deltas_bits(*layout, d)) + f =~= base@ + (
            message::deltas_bits(*layout, d) + f));
        }
        k = k + 1;
    }
}

/// Appends one run.
#[verifier::spinoff_prover]
#[verifier::rlimit(40)]
fn write_run(w: &mut BitWriter, layout: &DeltaWireLayout, cells: &Vec<(u16, i64)>, span: RunSpan)
    requires
        old(w).wf(),
        layout.plaintext_bits <= 62,
        layout.delta_bits == layout.plaintext_bits + 1,
        layout.offset_bits <= 64,
        sparse::cells_canonical(*layout, cells@),
        span_of(cells@, span, sparse::span_run(cells@, span.from as int, span.to as int)),
        old(w).written().len() + message::run_bits(
            *layout,
            sparse::span_run(cells@, span.from as int, span.to as int),
        ).len() <= 8 * old(w).byte_len(),
    ensures
        final(w).wf(),
        final(w).byte_len() == old(w).byte_len(),
        final(w).written() == old(w).written() + message::run_bits(
            *layout,
            sparse::span_run(cells@, span.from as int, span.to as int),
        ),
{
    let ghost r = sparse::span_run(cells@, span.from as int, span.to as int);
    let ghost from = span.from as int;
    let ghost db = layout.delta_bits as nat;
    proof {
        lemma_modulus(*layout);
        codec::lemma_run_bits_len(*layout, r);
    }
    let p_minus_1: i64 = (1i64 << layout.plaintext_bits) - 1;
    w.write_bits(span.start as u64, layout.offset_bits);
    w.write_bits((span.len - 1) as u64, layout.offset_bits);
    let ghost base = w.written();
    let mut c: usize = span.from;
    proof {
        assert(cells@.subrange(from, from) =~= Seq::<(u16, i64)>::empty());
        assert(base + message::deltas_bits(*layout, Seq::<int>::empty()) =~= base);
    }
    while c < span.to
        invariant
            from == span.from <= c <= span.to <= cells@.len(),
            w.wf(),
            db == layout.delta_bits == layout.plaintext_bits + 1,
            layout.plaintext_bits <= 62,
            p_minus_1 == message::modulus(*layout) - 1,
            0 < message::modulus(*layout) <= 0x4000_0000_0000_0000,
            w.byte_len() == old(w).byte_len(),
            sparse::cells_canonical(*layout, cells@),
            r.deltas == sparse::merged(cells@.subrange(from, span.to as int)),
            base.len() + r.deltas.len() * db <= 8 * w.byte_len(),
            w.written() == base + message::deltas_bits(
                *layout,
                sparse::merged(cells@.subrange(from, c as int)),
            ),
        decreases span.to - c,
    {
        let delta: i64 = cells[c].1;
        let offset: u16 = cells[c].0;
        let ghost part = cells@.subrange(from, c + 1);
        let ghost done = sparse::merged(cells@.subrange(from, c as int));
        let ghost filled: Seq<int>;
        proof {
            let whole = cells@.subrange(from, span.to as int);
            assert forall|a: int, b: int| 0 <= a < b < whole.len() implies whole[a].0
                < whole[b].0 by {
                assert(cells@[from + a].0 < cells@[from + b].0);
            }
            assert forall|a: int, b: int| 0 <= a < b < part.len() implies part[a].0
                < part[b].0 by {
                assert(cells@[from + a].0 < cells@[from + b].0);
            }
            sparse::lemma_merged_len(whole);
            sparse::lemma_merged_len(part);
            assert(part.last().0 <= whole.last().0) by {
                if c + 1 < span.to {
                    assert(cells@[c as int].0 < cells@[span.to - 1].0);
                }
            }
            assert(sparse::merged(part).len() <= r.deltas.len());
            assert(part.drop_last() =~= cells@.subrange(from, c as int));
            assert(part[part.len() - 1] == cells@[c as int]);
            assert(sparse::merged(part).len() * db <= r.deltas.len() * db) by (nonlinear_arith)
                requires
                    sparse::merged(part).len() <= r.deltas.len(),
            ;
        }
        if c > span.from {
            proof {
                assert(cells@[c - 1].0 < cells@[c as int].0);
                assert(part[part.len() - 2] == cells@[c - 1]);
            }
            let gap: u32 = (offset - cells[c - 1].0 - 1) as u32;
            proof {
                assert(sparse::merged(part) == (done + sparse::zeros(gap as nat)).push(
                    delta as int,
                ));
                assert((done.len() + gap) * db <= sparse::merged(part).len() * db)
                    by (nonlinear_arith)
                    requires
                        done.len() + gap <= sparse::merged(part).len(),
                ;
            }
            write_zero_deltas(w, layout, gap, p_minus_1 as u64, Ghost(done), Ghost(base));
            proof {
                filled = done + sparse::zeros(gap as nat);
            }
        } else {
            proof {
                assert(part =~= seq![cells@[c as int]]);
                assert(cells@.subrange(from, c as int) =~= Seq::<(u16, i64)>::empty());
                filled = done;
                assert(filled.push(delta as int) =~= sparse::merged(part));
            }
        }
        proof {
            assert(sparse::merged(part) == filled.push(delta as int));
            codec::lemma_deltas_bits_len(*layout, filled);
            assert(sparse::merged(part).len() * db == filled.len() * db + db) by (nonlinear_arith)
                requires
                    sparse::merged(part).len() == filled.len() + 1,
            ;
            lemma_deltas_bits_push(*layout, filled, delta as int);
        }
        let code: u64 = (delta + p_minus_1) as u64;
        w.write_bits(code, layout.delta_bits);
        proof {
            let f = bits::field(message::code(*layout, delta as int), db);
            assert((base + message::deltas_bits(*layout, filled)) + f =~= base + (
            message::deltas_bits(*layout, filled) + f));
        }
        c = c + 1;
    }
    proof {
        assert(w.written() =~= old(w).written() + message::run_bits(*layout, r));
    }
}

proof fn lemma_runs_bits_take(l: DeltaWireLayout, runs: Seq<message::Run>, t: int)
    requires
        0 < t < runs.len(),
    ensures
        message::runs_bits(l, runs.take(t + 1)) == message::runs_bits(l, runs.take(t)).push(true)
            + message::run_bits(l, runs[t]),
{
    assert(runs.take(t + 1).drop_last() =~= runs.take(t));
    assert(runs.take(t + 1).last() == runs[t]);
}

proof fn lemma_runs_bits_take_len(l: DeltaWireLayout, runs: Seq<message::Run>, t: int)
    requires
        0 <= t <= runs.len(),
    ensures
        message::runs_bits(l, runs.take(t)).len() <= message::runs_bits(l, runs).len(),
    decreases runs.len(),
{
    if t < runs.len() {
        lemma_runs_bits_take_len(l, runs.drop_last(), t);
        assert(runs.drop_last().take(t) =~= runs.take(t));
        if runs.len() == 1 {
            assert(runs.take(t) =~= Seq::<message::Run>::empty());
        }
    } else {
        assert(runs.take(t) =~= runs);
    }
}

/// Appends one row.
fn write_row(w: &mut BitWriter, layout: &DeltaWireLayout, bucket: u32, cells: &Vec<(u16, i64)>)
    requires
        old(w).wf(),
        layout.plaintext_bits <= 62,
        layout.delta_bits == layout.plaintext_bits + 1,
        layout.offset_bits <= 64,
        layout.bucket_bits <= 64,
        sparse::cells_canonical(*layout, cells@),
        cells@.len() > 0,
        old(w).written().len() + message::row_bits(
            *layout,
            (message::Row {
                bucket: bucket as int,
                runs: sparse::split(layout.max_gap as nat, cells@),
            }),
        ).len() <= 8 * old(w).byte_len(),
    ensures
        final(w).wf(),
        final(w).byte_len() == old(w).byte_len(),
        final(w).written() == old(w).written() + message::row_bits(
            *layout,
            (message::Row {
                bucket: bucket as int,
                runs: sparse::split(layout.max_gap as nat, cells@),
            }),
        ),
{
    let ghost runs = sparse::split(layout.max_gap as nat, cells@);
    let ghost row = message::Row { bucket: bucket as int, runs };
    let ghost start = w.written();
    let spans: Vec<RunSpan> = row_runs(cells, layout.max_gap);
    w.write_bit(true);
    w.write_bits(bucket as u64, layout.bucket_bits);
    let ghost head = w.written();
    let mut t: usize = 0;
    proof {
        sparse::lemma_split(*layout, cells@);
        assert(runs.take(0) =~= Seq::<message::Run>::empty());
        assert(head + message::runs_bits(*layout, runs.take(0)) =~= head);
    }
    while t < spans.len()
        invariant
            t <= spans@.len(),
            spans@.len() == runs.len() > 0,
            w.wf(),
            w.byte_len() == old(w).byte_len(),
            layout.plaintext_bits <= 62,
            layout.delta_bits == layout.plaintext_bits + 1,
            layout.offset_bits <= 64,
            sparse::cells_canonical(*layout, cells@),
            forall|k: int|
                0 <= k < spans@.len() ==> span_of(cells@, #[trigger] spans@[k], runs[k]),
            head.len() + message::runs_bits(*layout, runs).len() + 1 <= 8 * w.byte_len(),
            w.written() == head + message::runs_bits(*layout, runs.take(t as int)),
        decreases spans@.len() - t,
    {
        let span: RunSpan = spans[t];
        let ghost before = w.written();
        proof {
            assert(span_of(cells@, spans@[t as int], runs[t as int]));
            lemma_runs_bits_take_len(*layout, runs, t + 1);
            if t > 0 {
                lemma_runs_bits_take(*layout, runs, t as int);
            } else {
                assert(runs.take(1) =~= seq![runs[0]]);
                assert(message::runs_bits(*layout, runs.take(1)) == message::run_bits(
                    *layout,
                    runs[0],
                ));
            }
        }
        if t > 0 {
            w.write_bit(true);
        }
        write_run(w, layout, cells, span);
        proof {
            assert(w.written() =~= head + message::runs_bits(*layout, runs.take(t + 1)));
        }
        t = t + 1;
    }
    proof {
        assert(runs.take(runs.len() as int) =~= runs);
    }
    w.write_bit(false);
    proof {
        assert(w.written() =~= start + message::row_bits(*layout, row));
    }
}

/// Whole bytes hold a bit string and its padding.
proof fn lemma_padded(s: Seq<bool>, bytes: nat)
    requires
        bytes == geometry::ceil_div(s.len() as int, 8),
    ensures
        s.len() <= 8 * bytes <= s.len() + 7,
        s + Seq::new((8 * bytes - s.len()) as nat, |i: int| false) == bits::padded(s),
{
    assert(bits::pad_len(s.len()) == 8 * bytes - s.len());
}

impl<B: IndexPirBackend> HintDeltaBundle<B> {
    /// The bit-packed encoding of a canonical bundle, padded with clear bits to a whole
    /// number of bytes.
    #[verifier::spinoff_prover]
    #[verifier::rlimit(40)]
    pub fn encode(&self) -> (bytes: Vec<u8>)
        requires
            self.params.valid(),
            self.canonical(),
            self.wire_bits().len() + 7 <= usize::MAX,
        ensures
            bits::stream(bytes@) == bits::padded(self.wire_bits()),
            bytes@.len() == geometry::ceil_div(self.wire_bits().len() as int, 8),
    {
        let stats: DeltaWireStats = self.wire_stats();
        let l: DeltaWireLayout = self.layout();
        let ghost e = self.edits();
        let ghost head = bits::field(self.epoch as nat, 64);
        let ghost cap = 8 * stats.bytes as nat;
        proof {
            lemma_layout(self.params);
            lemma_padded(self.wire_bits(), stats.bytes as nat);
            assert(self.wire_bits().len() >= 64) by {
                self.lemma_wire_bits_len();
            }
        }
        let mut w: BitWriter = BitWriter::new(stats.bytes);
        w.write_bits(self.epoch, 64);
        let mut j: usize = 0;
        proof {
            assert(e.take(0) =~= Seq::<sparse::Edits>::empty());
            assert(w.written() =~= head);
            assert(head + message::rows_bits(l, sparse::all_rows(l, e.take(0))) =~= head);
        }
        while j < self.per_segment_row_deltas.len()
            invariant
                self.params.valid(),
                self.canonical(),
                l == self.spec_layout(),
                e == self.edits(),
                e.len() == self.per_segment_row_deltas@.len() == self.params.spec_arity(),
                codec::layout_ok(l),
                self.params.spec_arity() * l.segment_size == l.num_buckets,
                l.plaintext_bits <= 62,
                l.offset_bits <= 32,
                l.bucket_bits <= 32,
                self.wire_bits().len() <= cap,
                j <= e.len(),
                w.wf(),
                8 * w.byte_len() == cap,
                head.len() == 64,
                w.written() == head + message::rows_bits(
                    l,
                    sparse::all_rows(l, e.take(j as int)),
                ),
            decreases e.len() - j,
        {
            let seg: &SegmentRowDeltas = &self.per_segment_row_deltas[j];
            proof {
                self.lemma_rows_before_ends(j as int);
                assert(e[j as int] == edits_view(seg@));
            }
            let mut i: usize = 0;
            while i < seg.len()
                invariant
                    self.params.valid(),
                    self.canonical(),
                    l == self.spec_layout(),
                    e == self.edits(),
                    e.len() == self.params.spec_arity(),
                    codec::layout_ok(l),
                    self.params.spec_arity() * l.segment_size == l.num_buckets,
                    l.plaintext_bits <= 62,
                    l.offset_bits <= 32,
                    l.bucket_bits <= 32,
                    self.wire_bits().len() <= cap,
                    j < e.len(),
                    e[j as int] == edits_view(seg@),
                    i <= seg@.len(),
                    w.wf(),
                    8 * w.byte_len() == cap,
                    head.len() == 64,
                    w.written() == head + message::rows_bits(
                        l,
                        self.rows_before(j as int, i as int),
                    ),
                decreases seg@.len() - i,
            {
                let row: u32 = seg[i].0;
                let cells: &Vec<(u16, i64)> = &seg[i].1;
                let ghost r = sparse::segment_rows(l, j as int, e[j as int])[i as int];
                proof {
                    assert(sparse::edits_canonical(l, e[j as int]));
                    assert(e[j as int][i as int] == (row, cells@));
                    self.lemma_rows_before(j as int, i + 1);
                    self.lemma_rows_before_step(j as int, i as int);
                    sparse::lemma_bucket(l.segment_size as int, j as int, row as int);
                    assert((j + 1) * l.segment_size <= e.len() * l.segment_size)
                        by (nonlinear_arith)
                        requires
                            j + 1 <= e.len(),
                    ;
                }
                let bucket: u32 = j as u32 * l.segment_size + row;
                write_row(&mut w, &l, bucket, cells);
                proof {
                    let before = message::rows_bits(l, self.rows_before(j as int, i as int));
                    assert((head + before) + message::row_bits(l, r) =~= head + (before
                        + message::row_bits(l, r)));
                }
                i = i + 1;
            }
            j = j + 1;
        }
        proof {
            assert(e.take(e.len() as int) =~= e);
            assert(w.written().push(false) =~= self.wire_bits());
        }
        w.write_bit(false);
        proof {
            lemma_padded(self.wire_bits(), stats.bytes as nat);
        }
        w.finish()
    }
}

/// Reads the deltas of a run and appends its non-zero cells to `cells`; gives whether the
/// run starts and ends with a non-zero delta and bridges no gap longer than allowed.
fn read_deltas(
    r: &mut BitReader<'_>,
    layout: &DeltaWireLayout,
    start: u32,
    len: u32,
    cells: &mut Vec<(u16, i64)>,
) -> (res: Result<bool, WireError>)
    requires
        old(r).wf(),
        layout.plaintext_bits <= 62,
        layout.delta_bits == layout.plaintext_bits + 1,
        0 < len,
        start + len <= u32::MAX,
    ensures
        final(r).wf(),
        final(r).source() == old(r).source(),
        match message::parse_deltas(
            *layout,
            old(r).source(),
            old(r).pos(),
            start as int,
            len as nat,
            Seq::empty(),
        ) {
            Err(e) => res == Err::<bool, WireError>(e),
            Ok(d) => {
                &&& d.len() == len
                &&& res == Ok::<bool, WireError>(message::run_is_tight(*layout, d))
                &&& final(r).pos() == old(r).pos() + len * layout.delta_bits
                &&& final(cells)@ == old(cells)@ + sparse::run_cells(start as int, d)
            },
        },
{
    let ghost s = r.source();
    let ghost pos0 = r.pos();
    let ghost whole = message::parse_deltas(
        *layout,
        s,
        pos0,
        start as int,
        len as nat,
        Seq::empty(),
    );
    proof {
        lemma_modulus(*layout);
        reveal(message::parse_deltas);
    }
    let p: u64 = 1u64 << layout.plaintext_bits;
    let max_code: u64 = 2 * p - 2;
    let p_minus_1: i64 = (p - 1) as i64;
    let mut zero_run: u32 = 0;
    let mut max_zero_run: u32 = 0;
    let mut boundary_zero: bool = false;
    let mut k: u32 = 0;
    let ghost mut acc: Seq<int> = Seq::empty();
    proof {
        assert(cells@ + sparse::run_cells(start as int, acc) =~= cells@);
        assert(0 * layout.delta_bits == 0);
    }
    while k < len
        invariant
            r.wf(),
            r.source() == s,
            s == old(r).source(),
            pos0 == old(r).pos(),
            k <= len,
            acc.len() == k,
            start + len <= u32::MAX,
            layout.delta_bits == layout.plaintext_bits + 1,
            layout.plaintext_bits <= 62,
            p == message::modulus(*layout),
            0 < p <= 0x4000_0000_0000_0000,
            max_code == 2 * p - 2,
            p_minus_1 == p - 1,
            whole == message::parse_deltas(
                *layout,
                s,
                pos0,
                start as int,
                len as nat,
                Seq::empty(),
            ),
            whole == message::parse_deltas(*layout, s, r.pos(), start as int, len as nat, acc),
            r.pos() == pos0 + k * layout.delta_bits,
            cells@ == old(cells)@ + sparse::run_cells(start as int, acc),
            zero_run == message::trailing_zeros(acc) <= k,
            max_zero_run == message::longest_zeros(acc) <= k,
            boundary_zero == ((k > 0 && acc[0] == 0) || (k == len && acc.last() == 0)),
        decreases len - k,
    {
        proof {
            reveal(message::parse_deltas);
        }
        let ghost before = acc;
        let code: u64 = match r.read_bits(layout.delta_bits) {
            Ok(v) => v,
            Err(e) => {
                return Err(e);
            },
        };
        if code > max_code {
            return Err(WireError::DeltaOutOfRange { code });
        }
        let delta: i64 = code as i64 - p_minus_1;
        proof {
            acc = acc.push(delta as int);
            assert(acc.drop_last() =~= before);
            assert((k + 1) * layout.delta_bits == k * layout.delta_bits + layout.delta_bits)
                by (nonlinear_arith);
        }
        if delta == 0 {
            if k == 0 || k == len - 1 {
                boundary_zero = true;
            }
            zero_run = zero_run + 1;
            if zero_run > max_zero_run {
                max_zero_run = zero_run;
            }
        } else {
            zero_run = 0;
            let offset: u32 = start + k;
            if offset > 0xffff {
                return Err(WireError::OffsetOutOfRange { offset });
            }
            let ghost prev = cells@;
            cells.push((offset as u16, delta));
            proof {
                assert(cells@ =~= old(cells)@ + sparse::run_cells(start as int, acc));
            }
        }
        k = k + 1;
    }
    proof {
        reveal(message::parse_deltas);
    }
    Ok(!boundary_zero && max_zero_run <= layout.max_gap)
}

/// One past the last offset of the runs read so far.
pub open spec fn last_end(runs: Seq<message::Run>) -> Option<u32> {
    if runs.len() == 0 {
        None
    } else {
        Some(message::run_end(runs.last()) as u32)
    }
}

/// Reads one run, appends its non-zero cells to `cells`, and gives its end.
fn read_run(
    r: &mut BitReader<'_>,
    layout: &DeltaWireLayout,
    prev_end: Option<u32>,
    cells: &mut Vec<(u16, i64)>,
    prev: Ghost<Seq<message::Run>>,
) -> (res: Result<u32, WireError>)
    requires
        old(r).wf(),
        codec::layout_ok(*layout),
        layout.plaintext_bits <= 62,
        layout.offset_bits <= 31,
        layout.row_width <= 0x8000_0000,
        prev_end == last_end(prev@),
        forall|i: int|
            0 <= i < prev@.len() ==> message::run_end(#[trigger] prev@[i]) <= layout.row_width,
        forall|i: int| 0 <= i < prev@.len() ==> message::run_end(#[trigger] prev@[i]) >= 0,
        old(cells)@ == sparse::row_cells(prev@),
    ensures
        final(r).wf(),
        final(r).source() == old(r).source(),
        match message::parse_run(*layout, old(r).source(), old(r).pos(), prev@) {
            Err(e) => res == Err::<u32, WireError>(e),
            Ok(run) => {
                &&& res == Ok::<u32, WireError>(message::run_end(run) as u32)
                &&& 0 <= message::run_end(run) <= layout.row_width
                &&& final(r).pos() == old(r).pos() + message::run_len_bits(
                    *layout,
                    run.deltas.len(),
                )
                &&& final(cells)@ == sparse::row_cells(prev@.push(run))
            },
        },
{
    proof {
        reveal(message::parse_run);
        lemma2_to64();
        if layout.offset_bits < 31 {
            lemma_pow2_strictly_increases(layout.offset_bits as nat, 31);
        }
        if prev@.len() > 0 {
            assert(prev@.last() == prev@[prev@.len() - 1]);
        }
    }
    let start: u32 = match r.read_bits(layout.offset_bits) {
        Ok(v) => v as u32,
        Err(e) => {
            return Err(e);
        },
    };
    if start >= layout.row_width {
        return Err(WireError::OffsetOutOfRange { offset: start });
    }
    let len_minus_1: u32 = match r.read_bits(layout.offset_bits) {
        Ok(v) => v as u32,
        Err(e) => {
            return Err(e);
        },
    };
    let len: u32 = len_minus_1 + 1;
    let end: u32 = start + len;
    if end > layout.row_width {
        return Err(WireError::OffsetOutOfRange { offset: end });
    }
    if let Some(pe) = prev_end {
        if start < pe || start - pe <= layout.max_gap {
            return Err(WireError::NonCanonicalRuns);
        }
    }
    let tight: bool = match read_deltas(r, layout, start, len, cells) {
        Ok(t) => t,
        Err(e) => {
            return Err(e);
        },
    };
    if !tight {
        return Err(WireError::NonCanonicalRuns);
    }
    proof {
        let run = message::parse_run(*layout, old(r).source(), old(r).pos(), prev@)->Ok_0;
        assert(prev@.push(run).drop_last() =~= prev@);
        assert(run.deltas.len() == len);
    }
    Ok(end)
}

/// Reads the runs of one row and gives its non-zero cells.
fn read_row_cells(r: &mut BitReader<'_>, layout: &DeltaWireLayout) -> (res: Result<
    Vec<(u16, i64)>,
    WireError,
>)
    requires
        old(r).wf(),
        codec::layout_ok(*layout),
        layout.plaintext_bits <= 62,
        layout.offset_bits <= 31,
        layout.row_width <= 0x8000_0000,
    ensures
        final(r).wf(),
        final(r).source() == old(r).source(),
        match message::parse_runs(*layout, old(r).source(), old(r).pos(), Seq::empty()) {
            Err(e) => res == Err::<Vec<(u16, i64)>, WireError>(e),
            Ok((runs, after)) => res is Ok && res->Ok_0@ == sparse::row_cells(runs)
                && final(r).pos() == after,
        },
{
    let ghost s = r.source();
    let ghost pos0 = r.pos();
    let mut cells: Vec<(u16, i64)> = Vec::new();
    let mut prev_end: Option<u32> = None;
    let ghost mut acc: Seq<message::Run> = Seq::empty();
    loop
        invariant
            r.wf(),
            r.source() == s,
            s == old(r).source(),
            pos0 == old(r).pos(),
            codec::layout_ok(*layout),
            layout.plaintext_bits <= 62,
            layout.offset_bits <= 31,
            layout.row_width <= 0x8000_0000,
            prev_end == last_end(acc),
            forall|i: int|
                0 <= i < acc.len() ==> 0 <= message::run_end(#[trigger] acc[i])
                    <= layout.row_width,
            cells@ == sparse::row_cells(acc),
            message::parse_runs(*layout, s, pos0, Seq::empty()) == message::parse_runs(
                *layout,
                s,
                r.pos(),
                acc,
            ),
        decreases s.len() - r.pos(),
    {
        proof {
            reveal(message::parse_runs);
            r.lemma_pos();
        }
        let ghost before = acc;
        let ghost run = message::parse_run(*layout, s, r.pos(), before);
        let end: u32 = match read_run(r, layout, prev_end, &mut cells, Ghost(acc)) {
            Ok(e) => e,
            Err(e) => {
                return Err(e);
            },
        };
        prev_end = Some(end);
        proof {
            acc = before.push(run->Ok_0);
        }
        let flag: u64 = match r.read_bits(1) {
            Ok(v) => v,
            Err(e) => {
                return Err(e);
            },
        };
        if flag == 0 {
            return Ok(cells);
        }
        proof {
            r.lemma_pos();
        }
    }
}

/// The bucket of the last row read so far.
pub open spec fn last_bucket(rows: Seq<message::Row>) -> Option<u32> {
    if rows.len() == 0 {
        None
    } else {
        Some(rows.last().bucket as u32)
    }
}

/// Reads one row: its bucket and its non-zero cells, or nothing at the end of the list.
fn read_row(
    r: &mut BitReader<'_>,
    layout: &DeltaWireLayout,
    prev_bucket: Option<u32>,
    prev: Ghost<Seq<message::Row>>,
) -> (res: Result<Option<(u32, Vec<(u16, i64)>)>, WireError>)
    requires
        old(r).wf(),
        codec::layout_ok(*layout),
        layout.plaintext_bits <= 62,
        layout.offset_bits <= 31,
        layout.bucket_bits <= 32,
        layout.row_width <= 0x8000_0000,
        prev_bucket == last_bucket(prev@),
        prev@.len() > 0 ==> 0 <= prev@.last().bucket < layout.num_buckets,
    ensures
        final(r).wf(),
        final(r).source() == old(r).source(),
        match message::parse_row(*layout, old(r).source(), old(r).pos(), prev@) {
            Err(e) => res == Err::<Option<(u32, Vec<(u16, i64)>)>, WireError>(e),
            Ok(None) => {
                &&& res == Ok::<Option<(u32, Vec<(u16, i64)>)>, WireError>(None)
                &&& final(r).pos() == old(r).pos() + 1
            },
            Ok(Some((row, after))) => {
                &&& res matches Ok(Some((bucket, cells)))
                &&& bucket == row.bucket
                &&& bucket < layout.num_buckets
                &&& cells@ == sparse::row_cells(row.runs)
                &&& final(r).pos() == after
            },
        },
{
    proof {
        reveal(message::parse_row);
        lemma2_to64();
        if layout.bucket_bits < 32 {
            lemma_pow2_strictly_increases(layout.bucket_bits as nat, 32);
        }
    }
    let flag: u64 = match r.read_bits(1) {
        Ok(v) => v,
        Err(e) => {
            return Err(e);
        },
    };
    if flag == 0 {
        return Ok(None);
    }
    let bucket: u32 = match r.read_bits(layout.bucket_bits) {
        Ok(v) => v as u32,
        Err(e) => {
            return Err(e);
        },
    };
    if bucket >= layout.num_buckets {
        return Err(WireError::BucketOutOfRange { bucket });
    }
    if let Some(pb) = prev_bucket {
        if bucket <= pb {
            return Err(WireError::NonCanonicalRows);
        }
    }
    match read_row_cells(r, layout) {
        Ok(cells) => Ok(Some((bucket, cells))),
        Err(e) => Err(e),
    }
}

/// Reads all rows and sorts their edits by segment.
fn read_rows(r: &mut BitReader<'_>, layout: &DeltaWireLayout, arity: usize) -> (res: Result<
    Vec<SegmentRowDeltas>,
    WireError,
>)
    requires
        old(r).wf(),
        codec::layout_ok(*layout),
        layout.plaintext_bits <= 62,
        layout.offset_bits <= 31,
        layout.bucket_bits <= 32,
        layout.row_width <= 0x8000_0000,
        arity * layout.segment_size == layout.num_buckets,
    ensures
        final(r).wf(),
        final(r).source() == old(r).source(),
        match message::parse_rows(*layout, old(r).source(), old(r).pos(), Seq::empty()) {
            Err(e) => res == Err::<Vec<SegmentRowDeltas>, WireError>(e),
            Ok((rows, after)) => {
                &&& res is Ok
                &&& deltas_view(res->Ok_0@) == sparse::message_edits(*layout, rows, arity as nat)
                &&& final(r).pos() == after
            },
        },
{
    let ghost s = r.source();
    let ghost pos0 = r.pos();
    let mut segs: Vec<SegmentRowDeltas> = Vec::new();
    let mut j: usize = 0;
    while j < arity
        invariant
            j <= arity,
            segs@.len() == j,
            forall|k: int| 0 <= k < j ==> (#[trigger] segs@[k])@.len() == 0,
        decreases arity - j,
    {
        segs.push(Vec::new());
        j = j + 1;
    }
    let mut prev_bucket: Option<u32> = None;
    let ghost mut acc: Seq<message::Row> = Seq::empty();
    proof {
        assert(deltas_view(segs@) =~= sparse::message_edits(*layout, acc, arity as nat)) by {
            assert forall|k: int| 0 <= k < arity implies #[trigger] deltas_view(segs@)[k]
                == sparse::message_edits(*layout, acc, arity as nat)[k] by {
                assert(deltas_view(segs@)[k] =~= Seq::<(u32, Seq<(u16, i64)>)>::empty());
            }
        }
    }
    loop
        invariant
            r.wf(),
            r.source() == s,
            s == old(r).source(),
            pos0 == old(r).pos(),
            codec::layout_ok(*layout),
            layout.plaintext_bits <= 62,
            layout.offset_bits <= 31,
            layout.bucket_bits <= 32,
            layout.row_width <= 0x8000_0000,
            arity * layout.segment_size == layout.num_buckets,
            segs@.len() == arity,
            prev_bucket == last_bucket(acc),
            acc.len() > 0 ==> 0 <= acc.last().bucket < layout.num_buckets,
            deltas_view(segs@) == sparse::message_edits(*layout, acc, arity as nat),
            message::parse_rows(*layout, s, pos0, Seq::empty()) == message::parse_rows(
                *layout,
                s,
                r.pos(),
                acc,
            ),
        decreases s.len() - r.pos(),
    {
        proof {
            reveal(message::parse_rows);
            message::lemma_parse_row_advances(*layout, s, r.pos(), acc);
        }
        let ghost before = acc;
        let ghost parsed = message::parse_row(*layout, s, r.pos(), before);
        let (bucket, cells): (u32, Vec<(u16, i64)>) = match read_row(
            r,
            layout,
            prev_bucket,
            Ghost(acc),
        ) {
            Ok(Some(row)) => row,
            Ok(None) => {
                return Ok(segs);
            },
            Err(e) => {
                return Err(e);
            },
        };
        prev_bucket = Some(bucket);
        proof {
            if layout.segment_size == 0 {
                assert(arity * layout.segment_size == 0) by (nonlinear_arith)
                    requires
                        layout.segment_size == 0,
                ;
            }
        }
        let seg: usize = (bucket / layout.segment_size) as usize;
        let row: u32 = bucket % layout.segment_size;
        let ghost old_segs = segs@;
        proof {
            let size = layout.segment_size as int;
            let b = bucket as int;
            vstd::arithmetic::div_mod::lemma_fundamental_div_mod(b, size);
            assert(seg < arity) by (nonlinear_arith)
                requires
                    b < arity * size,
                    b == size * seg + b % size,
                    b % size >= 0,
                    size > 0,
            ;
        }
        let ghost edit = (row, cells@);
        segs[seg].push((row, cells));
        proof {
            let parsed_row = parsed->Ok_0->Some_0.0;
            acc = before.push(parsed_row);
            assert(acc.drop_last() =~= before);
            let new_edits = sparse::message_edits(*layout, acc, arity as nat);
            let old_edits = sparse::message_edits(*layout, before, arity as nat);
            assert forall|k: int| 0 <= k < arity implies #[trigger] deltas_view(segs@)[k]
                == new_edits[k] by {
                assert(deltas_view(old_segs)[k] == old_edits[k]);
                if k == seg {
                    assert(edits_view(segs@[k]@) =~= edits_view(old_segs[k]@).push(edit));
                } else {
                    assert(segs@[k] == old_segs[k]);
                }
            }
            assert(deltas_view(segs@) =~= new_edits);
        }
    }
}

impl<B: IndexPirBackend> HintDeltaBundle<B> {
    /// Reads a bundle back from its encoding under the receiver's geometry.
    ///
    /// Every field is checked against the end of the input before it is used; the first
    /// violation in reading order is reported.
    pub fn decode(bytes: &[u8], params: CuckooParams) -> (res: Result<Self, WireError>)
        requires
            params.valid(),
            8 * bytes@.len() + 64 <= usize::MAX,
        ensures
            match message::parse_message(DeltaWireLayout::of(params), bits::stream(bytes@)) {
                Err(e) => res == Err::<Self, WireError>(e),
                Ok((epoch, rows)) => {
                    &&& res is Ok
                    &&& res->Ok_0.epoch == epoch
                    &&& res->Ok_0.params == params
                    &&& res->Ok_0.edits() == sparse::message_edits(
                        DeltaWireLayout::of(params),
                        rows,
                        params.spec_arity(),
                    )
                },
            },
    {
        let l: DeltaWireLayout = DeltaWireLayout::for_params(&params);
        let arity: usize = params.arity();
        proof {
            lemma_layout(params);
        }
        let mut r: BitReader<'_> = BitReader::new(bytes);
        let ghost s = r.source();
        let epoch: u64 = match r.read_bits(64) {
            Ok(v) => v,
            Err(e) => {
                return Err(e);
            },
        };
        let per_segment_row_deltas: Vec<SegmentRowDeltas> = match read_rows(&mut r, &l, arity) {
            Ok(segs) => segs,
            Err(e) => {
                return Err(e);
            },
        };
        let end: usize = r.position();
        let pad: usize = (8 - (end % 8)) % 8;
        proof {
            r.lemma_pos();
            assert(pad == bits::pad_len(end as nat));
            assert(end + pad <= s.len());
        }
        let mut k: usize = 0;
        while k < pad
            invariant
                r.wf(),
                r.source() == s,
                k <= pad,
                r.pos() == end + k,
                end + pad <= s.len(),
                s == bits::stream(bytes@),
                pad == bits::pad_len(end as nat),
                message::parse_rows(DeltaWireLayout::of(params), s, 64, Seq::empty()) is Ok,
                message::parse_rows(
                    DeltaWireLayout::of(params),
                    s,
                    64,
                    Seq::empty(),
                )->Ok_0.1 == end,
                bit_io::read(s, 0, 64) is Some,
                forall|i: int| end <= i < end + k ==> !#[trigger] s[i],
            decreases pad - k,
        {
            proof {
                codec::lemma_read_flag(s, (end + k) as nat);
            }
            let bit: u64 = match r.read_bits(1) {
                Ok(v) => v,
                Err(e) => {
                    return Err(e);
                },
            };
            if bit != 0 {
                proof {
                    assert(s[end + k]);
                }
                return Err(WireError::NonZeroPadding);
            }
            k = k + 1;
        }
        if r.position() / 8 != bytes.len() {
            return Err(WireError::TrailingBytes);
        }
        Ok(HintDeltaBundle { epoch, per_segment_row_deltas, params, _marker: PhantomData })
    }

    /// Decoding the encoding of a canonical bundle under the same geometry gives back its
    /// epoch and its edits.
    pub proof fn law_decode_encode(self)
        requires
            self.params.valid(),
            self.canonical(),
        ensures
            message::parse_message(self.spec_layout(), bits::padded(self.wire_bits())) == Ok::<
                (u64, Seq<message::Row>),
                WireError,
            >((self.epoch, self.rows())),
            sparse::message_edits(self.spec_layout(), self.rows(), self.params.spec_arity())
                == self.edits(),
    {
        let l = self.spec_layout();
        lemma_layout(self.params);
        sparse::lemma_all_rows(l, self.edits());
        codec::lemma_parse_message_ok(l, self.epoch, self.rows());
        assert(sparse::message_edits(l, self.rows(), self.params.spec_arity()) =~= self.edits());
    }
}

impl<B: IndexPirBackend> HintDeltaBundle<B> {
    /// No encoding of the same rows, with each row's cells grouped into runs in another way,
    /// takes fewer bits; zeros inside a run count as cells.
    pub proof fn law_encoding_is_shortest(self, other: Seq<message::Row>)
        requires
            self.params.valid(),
            self.canonical(),
            other.len() == self.rows().len(),
            forall|i: int|
                0 <= i < other.len() ==> shortest::covers(
                    (#[trigger] other[i]).runs,
                    sparse::row_cells(self.rows()[i].runs),
                ),
        ensures
            self.wire_bits().len() <= message::message_bits(
                self.spec_layout(),
                self.epoch,
                other,
            ).len(),
    {
        lemma_layout(self.params);
        self.lemma_wire_bits_len();
        shortest::law_rows_are_shortest(self.spec_layout(), self.epoch, self.rows(), other);
    }
}

/// Every byte string that decodes is the encoding of what it decodes to: the edits are
/// canonical, and encoding them again gives the same bytes.
pub proof fn law_encode_decode(bytes: Seq<u8>, params: CuckooParams)
    requires
        params.valid(),
    ensures
        message::parse_message(DeltaWireLayout::of(params), bits::stream(bytes)) matches Ok(
            (epoch, rows),
        ) ==> {
            let l = DeltaWireLayout::of(params);
            let edits = sparse::message_edits(l, rows, params.spec_arity());
            &&& sparse::segments_canonical(l, edits)
            &&& bits::stream(bytes) == bits::padded(
                message::message_bits(l, epoch, sparse::all_rows(l, edits)),
            )
        },
{
    let l = DeltaWireLayout::of(params);
    lemma_layout(params);
    codec::lemma_parse_message_inv(l, bits::stream(bytes));
    if let Ok((epoch, rows)) = message::parse_message(l, bits::stream(bytes)) {
        sparse::lemma_message_edits(l, rows, params.spec_arity());
    }
}

/// Two canonical bundles of one geometry with the same encoding carry the same epoch and
/// the same edits.
pub proof fn law_encoding_injective<B: IndexPirBackend>(
    a: HintDeltaBundle<B>,
    b: HintDeltaBundle<B>,
)
    requires
        a.params.valid(),
        a.params == b.params,
        a.canonical(),
        b.canonical(),
        bits::padded(a.wire_bits()) == bits::padded(b.wire_bits()),
    ensures
        a.epoch == b.epoch,
        a.edits() == b.edits(),
{
    a.law_decode_encode();
    b.law_decode_encode();
}

/// No proper prefix of an accepted byte string is accepted.
pub proof fn law_truncated_rejected(bytes: Seq<u8>, n: int, params: CuckooParams)
    requires
        params.valid(),
        0 <= n < bytes.len(),
        message::parse_message(DeltaWireLayout::of(params), bits::stream(bytes)) is Ok,
    ensures
        message::parse_message(DeltaWireLayout::of(params), bits::stream(bytes.take(n))) is Err,
{
    let l = DeltaWireLayout::of(params);
    let s = bits::stream(bytes);
    let t = bits::stream(bytes.take(n));
    lemma_layout(params);
    assert(t.len() == 8 * n);
    assert forall|i: int| 0 <= i < t.len() implies s[i] == t[i] by {}
    if message::parse_message(l, t) is Ok {
        let (epoch, rows) = message::parse_message(l, t)->Ok_0;
        let none = Seq::<message::Row>::empty();
        assert(message::rows_valid(l, none));
        codec::lemma_parse_rows_inv(l, t, 64, none);
        assert(rows.skip(0) =~= rows);
        assert(rows.take(0) =~= none);
        let x = message::rows_bits(l, rows).push(false);
        assert(codec::at(s, 64, x)) by {
            reveal(codec::at);
            assert(s.subrange(64, 64 + x.len() as int) =~= t.subrange(64, 64 + x.len() as int));
        }
        codec::lemma_parse_rows_ok(l, s, 64, rows, 0);
        assert(false);
    }
}

} // verus!
