//! Sparse row edits and the rows of a message that carry them.
use vstd::arithmetic::div_mod::*;
use vstd::arithmetic::mul::*;
use vstd::arithmetic::power2::*;
use vstd::prelude::*;

use crate::wire::codec;
use crate::wire::layout::DeltaWireLayout;
use crate::wire::message;

verus! {

/// Edits of one row: cell offset and signed delta.
pub type Cells = Seq<(u16, i64)>;

/// Edited rows of one segment: row index and its cells.
pub type Edits = Seq<(u32, Seq<(u16, i64)>)>;

// ---------------------------------------------------------------- canonical edits
/// Offsets ascend strictly inside the row; deltas are non-zero and smaller than the modulus.
pub open spec fn cells_canonical(l: DeltaWireLayout, cells: Cells) -> bool {
    &&& forall|i: int|
        0 <= i < cells.len() ==> {
            &&& (#[trigger] cells[i]).0 < l.row_width
            &&& cells[i].1 != 0
            &&& -message::modulus(l) < cells[i].1 < message::modulus(l)
        }
    &&& forall|i: int, j: int| 0 <= i < j < cells.len() ==> cells[i].0 < cells[j].0
}

/// Rows ascend strictly inside the segment, and each carries at least one cell.
pub open spec fn edits_canonical(l: DeltaWireLayout, edits: Edits) -> bool {
    &&& forall|i: int|
        0 <= i < edits.len() ==> {
            &&& (#[trigger] edits[i]).0 < l.segment_size
            &&& edits[i].1.len() > 0
            &&& cells_canonical(l, edits[i].1)
        }
    &&& forall|i: int, j: int| 0 <= i < j < edits.len() ==> edits[i].0 < edits[j].0
}

// ---------------------------------------------------------------- cells and runs
pub open spec fn zeros(n: nat) -> Seq<int> {
    Seq::new(n, |i: int| 0int)
}

/// Groups cells into maximal runs: neighbours with at most `max_gap` zero cells between
/// them share a run.
pub open spec fn split(max_gap: nat, cells: Cells) -> Seq<message::Run>
    decreases cells.len(),
{
    if cells.len() == 0 {
        Seq::empty()
    } else {
        let before = split(max_gap, cells.drop_last());
        let c = cells.last();
        if starts_run(max_gap, cells, cells.len() - 1) {
            before.push(message::Run { start: c.0 as int, deltas: seq![c.1 as int] })
        } else {
            let gap = c.0 - cells[cells.len() - 2].0 - 1;
            before.drop_last().push(
                message::Run {
                    start: before.last().start,
                    deltas: (before.last().deltas + zeros(gap as nat)).push(c.1 as int),
                },
            )
        }
    }
}

/// Cell `i` is the first one of its run.
pub open spec fn starts_run(max_gap: nat, cells: Cells, i: int) -> bool {
    i == 0 || cells[i].0 - cells[i - 1].0 - 1 > max_gap
}

/// The non-zero cells of a run.
pub open spec fn run_cells(start: int, d: Seq<int>) -> Cells
    decreases d.len(),
{
    if d.len() == 0 {
        Seq::empty()
    } else {
        let before = run_cells(start, d.drop_last());
        if d.last() == 0 {
            before
        } else {
            before.push(((start + d.len() - 1) as u16, d.last() as i64))
        }
    }
}

/// The non-zero cells of a row.
pub open spec fn row_cells(runs: Seq<message::Run>) -> Cells
    decreases runs.len(),
{
    if runs.len() == 0 {
        Seq::empty()
    } else {
        row_cells(runs.drop_last()) + run_cells(runs.last().start, runs.last().deltas)
    }
}

pub proof fn lemma_zeros(d: Seq<int>, g: nat)
    requires
        d.len() > 0,
        d.last() != 0,
    ensures
        message::trailing_zeros(d + zeros(g)) == g,
        message::longest_zeros(d + zeros(g)) == if g > message::longest_zeros(d) {
            g
        } else {
            message::longest_zeros(d)
        },
    decreases g,
{
    if g == 0 {
        assert(d + zeros(g) =~= d);
    } else {
        lemma_zeros(d, (g - 1) as nat);
        assert((d + zeros(g)).drop_last() =~= d + zeros((g - 1) as nat));
    }
}

pub proof fn lemma_run_cells_zeros(start: int, d: Seq<int>, g: nat)
    ensures
        run_cells(start, d + zeros(g)) == run_cells(start, d),
    decreases g,
{
    if g == 0 {
        assert(d + zeros(g) =~= d);
    } else {
        lemma_run_cells_zeros(start, d, (g - 1) as nat);
        assert((d + zeros(g)).drop_last() =~= d + zeros((g - 1) as nat));
    }
}

/// The runs of canonical cells are valid and hold exactly these cells.
#[verifier::rlimit(60)]
#[verifier::spinoff_prover]
pub proof fn lemma_split(l: DeltaWireLayout, cells: Cells)
    requires
        cells_canonical(l, cells),
    ensures
        message::runs_valid(l, split(l.max_gap as nat, cells)),
        row_cells(split(l.max_gap as nat, cells)) == cells,
        cells.len() > 0 ==> split(l.max_gap as nat, cells).len() > 0 && message::run_end(
            split(l.max_gap as nat, cells).last(),
        ) == cells.last().0 + 1,
        cells.len() == 0 ==> split(l.max_gap as nat, cells).len() == 0,
    decreases cells.len(),
{
    let g = l.max_gap as nat;
    if cells.len() > 0 {
        let n = cells.len() as int;
        let init = cells.drop_last();
        let c = cells.last();
        let off = c.0 as int;
        let x = c.1 as int;
        assert forall|i: int, j: int| 0 <= i < j < init.len() implies init[i].0 < init[j].0 by {
            assert(cells[i].0 < cells[j].0);
        }
        lemma_split(l, init);
        let before = split(g, init);
        let runs = split(g, cells);
        assert(cells[n - 1] == c);
        assert(init.push(c) =~= cells);
        if starts_run(g, cells, n - 1) {
            let r = message::Run { start: off, deltas: seq![x] };
            assert(runs == before.push(r));
            assert(runs.drop_last() =~= before);
            assert(r.deltas.drop_last() =~= Seq::<int>::empty());
            assert(message::longest_zeros(r.deltas.drop_last()) == 0);
            assert(message::trailing_zeros(r.deltas) == 0);
            assert(message::run_valid(l, r));
            assert(run_cells(off, r.deltas.drop_last()) =~= Seq::<(u16, i64)>::empty());
            assert(run_cells(off, r.deltas) =~= seq![c]);
            assert(row_cells(runs) =~= cells);
            assert forall|i: int| 1 <= i < runs.len() implies (#[trigger] runs[i]).start
                > message::run_end(runs[i - 1]) + l.max_gap by {
                if i < before.len() {
                    assert(before[i].start > message::run_end(before[i - 1]) + l.max_gap);
                } else {
                    assert(before.last() == runs[i - 1]);
                    assert(init.last() == cells[n - 2]);
                }
            }
        } else {
            let prev = cells[n - 2];
            assert(init.last() == prev);
            assert(prev.0 < c.0);
            let gap = (c.0 - prev.0 - 1) as nat;
            let old = before.last();
            let mid = old.deltas + zeros(gap);
            let r = message::Run { start: old.start, deltas: mid.push(x) };
            assert(runs == before.drop_last().push(r));
            assert(message::run_valid(l, before[before.len() - 1]));
            lemma_zeros(old.deltas, gap);
            assert(mid.push(x).drop_last() =~= mid);
            assert(message::trailing_zeros(mid.push(x)) == 0);
            assert(message::run_end(r) == off + 1);
            assert forall|i: int| 0 <= i < r.deltas.len() implies -message::modulus(l)
                < #[trigger] r.deltas[i] < message::modulus(l) by {
                if i < old.deltas.len() {
                    assert(r.deltas[i] == old.deltas[i]);
                } else if i < mid.len() {
                    lemma_pow2_pos(l.plaintext_bits as nat);
                    assert(r.deltas[i] == 0);
                }
            }
            assert(r.deltas[0] == old.deltas[0]);
            assert(message::run_valid(l, r));
            lemma_run_cells_zeros(old.start, old.deltas, gap);
            let base = row_cells(before.drop_last());
            assert(run_cells(old.start, r.deltas) == run_cells(old.start, old.deltas).push(c));
            assert(runs.drop_last() =~= before.drop_last());
            assert(row_cells(runs) =~= base + run_cells(old.start, old.deltas).push(c));
            assert(base + run_cells(old.start, old.deltas) == init);
            assert(row_cells(runs) =~= cells);
            assert forall|i: int| 1 <= i < runs.len() implies (#[trigger] runs[i]).start
                > message::run_end(runs[i - 1]) + l.max_gap by {
                assert(before[i].start > message::run_end(before[i - 1]) + l.max_gap);
            }
        }
    }
}

/// What `d` is without the zeros at its end.
pub open spec fn trimmed(d: Seq<int>) -> Seq<int> {
    d.take(d.len() - message::trailing_zeros(d))
}

pub proof fn lemma_trimmed(d: Seq<int>)
    ensures
        message::trailing_zeros(d) <= d.len(),
        d == trimmed(d) + zeros(message::trailing_zeros(d)),
        trimmed(d).len() > 0 ==> trimmed(d).last() != 0,
    decreases d.len(),
{
    if d.len() > 0 && d.last() == 0 {
        lemma_trimmed(d.drop_last());
        assert(trimmed(d) =~= trimmed(d.drop_last()));
        assert(d =~= d.drop_last().push(0));
        let t = message::trailing_zeros(d.drop_last());
        assert(d =~= trimmed(d) + zeros(t + 1));
    } else {
        assert(trimmed(d) =~= d);
        assert(d =~= trimmed(d) + zeros(0));
    }
}

/// Splitting the cells of `init` and of a prefix `d` of a further run gives back `init`
/// and that prefix, up to its last non-zero delta.
#[verifier::rlimit(60)]
#[verifier::spinoff_prover]
proof fn lemma_split_prefix(l: DeltaWireLayout, init: Seq<message::Run>, start: int, d: Seq<int>)
    requires
        l.plaintext_bits <= 62,
        message::runs_valid(l, init),
        cells_canonical(l, row_cells(init)),
        split(l.max_gap as nat, row_cells(init)) == init,
        init.len() > 0 ==> row_cells(init).len() > 0 && row_cells(init).last().0
            == message::run_end(init.last()) - 1,
        init.len() > 0 ==> start > message::run_end(init.last()) + l.max_gap,
        0 <= start,
        start + d.len() <= l.row_width,
        start + d.len() <= 0x1_0000,
        d.len() > 0,
        d[0] != 0,
        forall|i: int|
            0 <= i < d.len() ==> -message::modulus(l) < #[trigger] d[i] < message::modulus(l),
        message::longest_zeros(d) <= l.max_gap,
    ensures
        cells_canonical(l, row_cells(init) + run_cells(start, d)),
        split(l.max_gap as nat, row_cells(init) + run_cells(start, d)) == init.push(
            message::Run { start, deltas: trimmed(d) },
        ),
        run_cells(start, d).len() > 0,
        trimmed(d).len() > 0,
        run_cells(start, d).last().0 == start + trimmed(d).len() - 1,
    decreases d.len(),
{
    let g = l.max_gap as nat;
    let base = row_cells(init);
    let n = d.len();
    let x = d.last();
    let dd = d.drop_last();
    let cells = base + run_cells(start, d);
    if x == 0 {
        lemma_split_prefix(l, init, start, dd);
        lemma_trimmed(dd);
        assert(trimmed(d) =~= trimmed(dd));
    } else {
        assert(-0x4000_0000_0000_0000 < x < 0x4000_0000_0000_0000) by {
            lemma2_to64_rest();
            lemma2_to64();
            if l.plaintext_bits < 62 {
                lemma_pow2_strictly_increases(l.plaintext_bits as nat, 62);
            }
            assert(d[n - 1] == x);
        }
        let c = ((start + n - 1) as u16, x as i64);
        let before = base + run_cells(start, dd);
        assert(cells =~= before.push(c));
        assert(cells.drop_last() =~= before);
        assert(trimmed(d) =~= d);
        assert(d[n - 1] == x);
        if n == 1 {
            assert(before =~= base);
            assert(d =~= seq![x]);
            assert forall|i: int, j: int| 0 <= i < j < cells.len() implies cells[i].0
                < cells[j].0 by {
                if j < base.len() {
                    assert(base[i].0 < base[j].0);
                } else {
                    assert(base.last().0 < start);
                    if i < base.len() - 1 {
                        assert(base[i].0 < base[base.len() - 1].0);
                    }
                }
            }
            assert(starts_run(g, cells, cells.len() - 1)) by {
                if base.len() > 0 {
                    if init.len() == 0 {
                        assert(row_cells(init) =~= Seq::<(u16, i64)>::empty());
                    }
                    assert(cells[cells.len() - 2] == base.last());
                }
            }
        } else {
            assert(dd[0] == d[0]);
            lemma_split_prefix(l, init, start, dd);
            lemma_trimmed(dd);
            let t = message::trailing_zeros(dd);
            let k = trimmed(dd);
            assert(t <= message::longest_zeros(dd));
            assert(d =~= (k + zeros(t)).push(x));
            assert(before.last() == run_cells(start, dd).last());
            let prev = before.last();
            assert(cells[cells.len() - 2] == prev);
            assert(cells[cells.len() - 1] == c);
            assert(c.0 - prev.0 - 1 == t);
            assert(!starts_run(g, cells, cells.len() - 1));
            let b = split(g, before);
            assert(b.drop_last() =~= init);
            assert(b.last() == message::Run { start, deltas: k });
            assert(split(g, cells) =~= init.push(message::Run { start, deltas: d }));
            assert forall|i: int, j: int| 0 <= i < j < cells.len() implies cells[i].0
                < cells[j].0 by {
                if j < before.len() {
                    assert(before[i].0 < before[j].0);
                } else if i < before.len() - 1 {
                    assert(before[i].0 < before[before.len() - 1].0);
                }
            }
        }
        assert forall|i: int| 0 <= i < cells.len() implies (#[trigger] cells[i]).0 < l.row_width
            && cells[i].1 != 0 && -message::modulus(l) < cells[i].1 < message::modulus(l) by {
            if i < before.len() {
                assert(before[i] == cells[i]);
            }
        }
    }
}

/// Valid runs are the runs of their own cells, and these cells are canonical.
#[verifier::rlimit(40)]
pub proof fn lemma_split_row_cells(l: DeltaWireLayout, runs: Seq<message::Run>)
    requires
        l.plaintext_bits <= 62,
        message::runs_valid(l, runs),
    ensures
        split(l.max_gap as nat, row_cells(runs)) == runs,
        cells_canonical(l, row_cells(runs)),
        runs.len() > 0 ==> row_cells(runs).len() > 0 && row_cells(runs).last().0
            == message::run_end(runs.last()) - 1,
    decreases runs.len(),
{
    if runs.len() > 0 {
        let init = runs.drop_last();
        let r = runs.last();
        let n = runs.len() as int;
        assert forall|i: int| 1 <= i < init.len() implies (#[trigger] init[i]).start
            > message::run_end(init[i - 1]) + l.max_gap by {
            assert(runs[i].start > message::run_end(runs[i - 1]) + l.max_gap);
        }
        lemma_split_row_cells(l, init);
        assert(runs[n - 1] == r);
        assert(message::run_valid(l, r));
        if init.len() > 0 {
            assert(init.last() == runs[n - 2]);
        }
        lemma_split_prefix(l, init, r.start, r.deltas);
        assert(trimmed(r.deltas) =~= r.deltas);
        assert(init.push(r) =~= runs);
        let cells = row_cells(runs);
        assert(cells.last() == run_cells(r.start, r.deltas).last());
    }
}

// ---------------------------------------------------------------- edits and rows
/// The message rows of segment `j`.
pub open spec fn segment_rows(l: DeltaWireLayout, j: int, edits: Edits) -> Seq<message::Row> {
    Seq::new(
        edits.len(),
        |i: int|
            message::Row {
                bucket: j * l.segment_size + edits[i].0,
                runs: split(l.max_gap as nat, edits[i].1),
            },
    )
}

/// The message rows of all segments, in order.
pub open spec fn all_rows(l: DeltaWireLayout, segs: Seq<Edits>) -> Seq<message::Row>
    decreases segs.len(),
{
    if segs.len() == 0 {
        Seq::empty()
    } else {
        all_rows(l, segs.drop_last()) + segment_rows(l, segs.len() - 1, segs.last())
    }
}

/// The edits that a message carries for segment `j`.
pub open spec fn segment_edits(l: DeltaWireLayout, rows: Seq<message::Row>, j: int) -> Edits
    decreases rows.len(),
{
    if rows.len() == 0 {
        Seq::empty()
    } else {
        let before = segment_edits(l, rows.drop_last(), j);
        let row = rows.last();
        if row.bucket / l.segment_size as int == j {
            before.push(((row.bucket % l.segment_size as int) as u32, row_cells(row.runs)))
        } else {
            before
        }
    }
}

pub proof fn lemma_bucket(segment_size: int, j: int, row: int)
    requires
        0 <= row < segment_size,
        0 <= j,
    ensures
        (j * segment_size + row) / segment_size == j,
        (j * segment_size + row) % segment_size == row,
        j * segment_size + row < (j + 1) * segment_size,
        0 <= j * segment_size,
{
    lemma_fundamental_div_mod_converse(j * segment_size + row, segment_size, j, row);
    assert((j + 1) * segment_size == j * segment_size + segment_size) by (nonlinear_arith);
    assert(0 <= j * segment_size) by (nonlinear_arith)
        requires
            0 <= j,
            0 <= segment_size,
    ;
}

pub proof fn lemma_segment_edits_append(
    l: DeltaWireLayout,
    a: Seq<message::Row>,
    b: Seq<message::Row>,
    j: int,
)
    ensures
        segment_edits(l, a + b, j) == segment_edits(l, a, j) + segment_edits(l, b, j),
    decreases b.len(),
{
    if b.len() == 0 {
        assert(a + b =~= a);
        assert(segment_edits(l, a, j) + segment_edits(l, b, j) =~= segment_edits(l, a, j));
    } else {
        lemma_segment_edits_append(l, a, b.drop_last(), j);
        assert((a + b).drop_last() =~= a + b.drop_last());
        assert(segment_edits(l, a + b, j) =~= segment_edits(l, a, j) + segment_edits(l, b, j));
    }
}

/// The rows of segment `k` carry its edits, and none of another segment.
pub proof fn lemma_segment_rows(l: DeltaWireLayout, k: int, edits: Edits, j: int)
    requires
        edits_canonical(l, edits),
        0 <= k,
    ensures
        segment_edits(l, segment_rows(l, k, edits), j) == if j == k {
            edits
        } else {
            Seq::empty()
        },
    decreases edits.len(),
{
    let rows = segment_rows(l, k, edits);
    if edits.len() > 0 {
        let init = edits.drop_last();
        assert forall|a: int, b: int| 0 <= a < b < init.len() implies init[a].0 < init[b].0 by {
            assert(edits[a].0 < edits[b].0);
        }
        lemma_segment_rows(l, k, init, j);
        assert(rows.drop_last() =~= segment_rows(l, k, init));
        let e = edits.last();
        assert(edits[edits.len() - 1] == e);
        lemma_bucket(l.segment_size as int, k, e.0 as int);
        lemma_split(l, e.1);
        assert(init.push(e) =~= edits);
        assert(rows.last().bucket == k * l.segment_size + e.0);
        assert(segment_edits(l, rows, j) =~= if j == k {
            edits
        } else {
            Seq::empty()
        });
    }
}

/// Every segment of the edits is canonical.
pub open spec fn segments_canonical(l: DeltaWireLayout, segs: Seq<Edits>) -> bool {
    forall|j: int| 0 <= j < segs.len() ==> edits_canonical(l, #[trigger] segs[j])
}

/// The rows of canonical edits are valid and carry exactly these edits.
pub proof fn lemma_all_rows(l: DeltaWireLayout, segs: Seq<Edits>)
    requires
        segments_canonical(l, segs),
        segs.len() * l.segment_size <= l.num_buckets,
    ensures
        message::rows_valid(l, all_rows(l, segs)),
        forall|i: int|
            0 <= i < all_rows(l, segs).len() ==> (#[trigger] all_rows(l, segs)[i]).bucket
                < segs.len() * l.segment_size,
        forall|j: int|
            0 <= j < segs.len() ==> #[trigger] segment_edits(l, all_rows(l, segs), j) == segs[j],
        forall|j: int|
            j >= segs.len() ==> #[trigger] segment_edits(l, all_rows(l, segs), j) == Seq::<
                (u32, Seq<(u16, i64)>),
            >::empty(),
    decreases segs.len(),
{
    if segs.len() > 0 {
        let init = segs.drop_last();
        let k = init.len() as int;
        let edits = segs.last();
        assert(segs[k] == edits);
        assert forall|j: int| 0 <= j < init.len() implies edits_canonical(
            l,
            #[trigger] init[j],
        ) by {
            assert(edits_canonical(l, segs[j]));
        }
        assert(segs.len() * l.segment_size == k * l.segment_size + l.segment_size)
            by (nonlinear_arith)
            requires
                segs.len() == k + 1,
        ;
        lemma_all_rows(l, init);
        let a = all_rows(l, init);
        let b = segment_rows(l, k, edits);
        let rows = all_rows(l, segs);
        assert(rows == a + b);
        assert forall|i: int| 0 <= i < b.len() implies message::row_valid(l, #[trigger] b[i])
            && k * l.segment_size <= b[i].bucket < segs.len() * l.segment_size by {
            let e = edits[i];
            lemma_bucket(l.segment_size as int, k, e.0 as int);
            lemma_split(l, e.1);
        }
        assert forall|i: int| 0 <= i < rows.len() implies message::row_valid(l, #[trigger] rows[i])
            && rows[i].bucket < segs.len() * l.segment_size by {
            if i < a.len() {
                assert(rows[i] == a[i]);
            } else {
                assert(rows[i] == b[i - a.len()]);
            }
        }
        assert forall|i: int, j: int| 0 <= i < j < rows.len() implies rows[i].bucket
            < rows[j].bucket by {
            if j < a.len() {
                assert(a[i].bucket < a[j].bucket);
            } else if i < a.len() {
                assert(rows[i] == a[i]);
                assert(rows[j] == b[j - a.len()]);
            } else {
                assert(edits[i - a.len()].0 < edits[j - a.len()].0);
            }
        }
        assert forall|j: int| 0 <= j implies #[trigger] segment_edits(l, rows, j) == if j
            < segs.len() {
            segs[j]
        } else {
            Seq::empty()
        } by {
            lemma_segment_edits_append(l, a, b, j);
            lemma_segment_rows(l, k, edits, j);
            assert(segment_edits(l, a, j) + segment_edits(l, b, j) =~= if j < segs.len() {
                segs[j]
            } else {
                Seq::empty()
            }) by {
                if j < k {
                    assert(segment_edits(l, a, j) == init[j]);
                }
            }
        }
    }
}

/// Each edit of segment `j` comes from a row of the message.
proof fn lemma_segment_edits_bound(l: DeltaWireLayout, rows: Seq<message::Row>, j: int, bound: int)
    requires
        l.segment_size > 0,
        0 <= j,
        forall|i: int| 0 <= i < rows.len() ==> 0 <= (#[trigger] rows[i]).bucket < bound,
    ensures
        forall|i: int|
            0 <= i < segment_edits(l, rows, j).len() ==> j * l.segment_size + (
            #[trigger] segment_edits(l, rows, j)[i]).0 < bound,
        j > bound / l.segment_size as int ==> segment_edits(l, rows, j).len() == 0,
    decreases rows.len(),
{
    if rows.len() > 0 {
        let init = rows.drop_last();
        let n = rows.len() as int;
        assert forall|i: int| 0 <= i < init.len() implies 0 <= (#[trigger] init[i]).bucket
            < bound by {
            assert(rows[i].bucket < bound);
        }
        lemma_segment_edits_bound(l, init, j, bound);
        let b = rows[n - 1].bucket;
        assert(b < bound);
        let s = l.segment_size as int;
        lemma_fundamental_div_mod(b, s);
        lemma_mul_is_commutative(s, b / s);
        lemma_div_is_ordered(b, bound, s);
        lemma_mod_bound(b, s);
        let before = segment_edits(l, init, j);
        let after = segment_edits(l, rows, j);
        assert forall|i: int| 0 <= i < after.len() implies j * l.segment_size + (
        #[trigger] after[i]).0 < bound by {
            if i < before.len() {
                assert(j * l.segment_size + before[i].0 < bound);
                assert(after[i] == before[i]);
            } else {
                assert(rows.last() == rows[n - 1]);
                assert(after[i].0 == b % s);
                assert(b == (b / s) * s + b % s);
            }
        }
    }
}

/// Appending a last edit to the last non-empty segment appends one row.
proof fn lemma_all_rows_push(
    l: DeltaWireLayout,
    segs: Seq<Edits>,
    j: int,
    e: (u32, Seq<(u16, i64)>),
)
    requires
        0 <= j < segs.len(),
        forall|i: int| j < i < segs.len() ==> (#[trigger] segs[i]).len() == 0,
    ensures
        all_rows(l, segs.update(j, segs[j].push(e))) == all_rows(l, segs).push(
            message::Row {
                bucket: j * l.segment_size + e.0,
                runs: split(l.max_gap as nat, e.1),
            },
        ),
    decreases segs.len(),
{
    let n = segs.len() as int;
    let next = segs.update(j, segs[j].push(e));
    let row = message::Row {
        bucket: j * l.segment_size + e.0,
        runs: split(l.max_gap as nat, e.1),
    };
    if j == n - 1 {
        assert(next.drop_last() =~= segs.drop_last());
        assert(segment_rows(l, j, segs[j].push(e)) =~= segment_rows(l, j, segs[j]).push(row));
        assert(all_rows(l, next) =~= all_rows(l, segs).push(row));
    } else {
        let init = segs.drop_last();
        assert forall|i: int| j < i < init.len() implies (#[trigger] init[i]).len() == 0 by {
            assert(segs[i].len() == 0);
        }
        lemma_all_rows_push(l, init, j, e);
        assert(next.drop_last() =~= init.update(j, init[j].push(e)));
        assert(segs[n - 1].len() == 0);
        assert(segment_rows(l, n - 1, segs.last()) =~= Seq::<message::Row>::empty());
        assert(all_rows(l, segs) =~= all_rows(l, init));
        assert(all_rows(l, next) =~= all_rows(l, next.drop_last()));
    }
}

proof fn lemma_all_rows_empty(l: DeltaWireLayout, segs: Seq<Edits>)
    requires
        forall|i: int| 0 <= i < segs.len() ==> (#[trigger] segs[i]).len() == 0,
    ensures
        all_rows(l, segs) == Seq::<message::Row>::empty(),
    decreases segs.len(),
{
    if segs.len() > 0 {
        let n = segs.len() as int;
        let init = segs.drop_last();
        assert forall|i: int| 0 <= i < init.len() implies (#[trigger] init[i]).len() == 0 by {
            assert(segs[i].len() == 0);
        }
        lemma_all_rows_empty(l, init);
        assert(segs[n - 1].len() == 0);
        assert(all_rows(l, segs) =~= Seq::<message::Row>::empty());
    }
}

/// The edits that a message carries, by segment.
pub open spec fn message_edits(l: DeltaWireLayout, rows: Seq<message::Row>, arity: nat) -> Seq<
    Edits,
> {
    Seq::new(arity, |j: int| segment_edits(l, rows, j))
}

/// Valid rows are the rows of the edits they carry, and these edits are canonical.
pub proof fn lemma_message_edits(l: DeltaWireLayout, rows: Seq<message::Row>, arity: nat)
    requires
        l.plaintext_bits <= 62,
        arity * l.segment_size == l.num_buckets,
        message::rows_valid(l, rows),
    ensures
        segments_canonical(l, message_edits(l, rows, arity)),
        all_rows(l, message_edits(l, rows, arity)) == rows,
    decreases rows.len(),
{
    let segs = message_edits(l, rows, arity);
    if rows.len() == 0 {
        lemma_all_rows_empty(l, segs);
        assert(rows =~= Seq::<message::Row>::empty());
    } else {
        let n = rows.len() as int;
        let init = rows.drop_last();
        let r = rows.last();
        assert(rows[n - 1] == r);
        assert(message::rows_valid(l, init)) by {
            assert forall|i: int| 0 <= i < init.len() implies message::row_valid(
                l,
                #[trigger] init[i],
            ) by {
                assert(message::row_valid(l, rows[i]));
            }
            assert forall|i: int, j: int| 0 <= i < j < init.len() implies init[i].bucket
                < init[j].bucket by {
                assert(rows[i].bucket < rows[j].bucket);
            }
        }
        lemma_message_edits(l, init, arity);
        let old = message_edits(l, init, arity);
        let s = l.segment_size as int;
        let b = r.bucket;
        let j = b / s;
        assert(message::row_valid(l, r));
        if s == 0 {
            assert(arity * s == 0) by (nonlinear_arith)
                requires
                    s == 0,
            ;
        }
        lemma_fundamental_div_mod(b, s);
        lemma_mul_is_commutative(s, j);
        lemma_mod_bound(b, s);
        lemma_div_pos_is_pos(b, s);
        assert(j < arity) by (nonlinear_arith)
            requires
                b < arity * s,
                b == j * s + b % s,
                b % s >= 0,
                s > 0,
        ;
        let e = ((b % s) as u32, row_cells(r.runs));
        assert forall|i: int| 0 <= i < init.len() implies 0 <= (#[trigger] init[i]).bucket < b by {
            assert(message::row_valid(l, rows[i]));
            assert(rows[i].bucket < rows[n - 1].bucket);
        }
        assert(segs =~= old.update(j, old[j].push(e)));
        assert forall|i: int| j < i < old.len() implies (#[trigger] old[i]).len() == 0 by {
            lemma_segment_edits_bound(l, init, i, b);
        }
        lemma_all_rows_push(l, old, j, e);
        lemma_split_row_cells(l, r.runs);
        assert(rows =~= init.push(r));
        lemma_segment_edits_bound(l, init, j, b);
        assert(edits_canonical(l, old[j].push(e))) by {
            let t = old[j].push(e);
            assert(edits_canonical(l, old[j]));
            assert forall|x: int, y: int| 0 <= x < y < t.len() implies t[x].0 < t[y].0 by {
                if y < old[j].len() {
                    assert(old[j][x].0 < old[j][y].0);
                } else {
                    assert(j * l.segment_size + segment_edits(l, init, j)[x].0 < b);
                }
            }
        }
        assert forall|i: int| 0 <= i < segs.len() implies edits_canonical(l, #[trigger] segs[i]) by {
            if i != j {
                assert(edits_canonical(l, old[i]));
            }
        }
    }
}

// ---------------------------------------------------------------- runs as spans of cells
/// The deltas of one run that covers all the given cells.
pub open spec fn merged(cells: Cells) -> Seq<int>
    decreases cells.len(),
{
    if cells.len() == 0 {
        Seq::empty()
    } else if cells.len() == 1 {
        seq![cells[0].1 as int]
    } else {
        let n = cells.len() as int;
        let gap = cells[n - 1].0 - cells[n - 2].0 - 1;
        (merged(cells.drop_last()) + zeros(gap as nat)).push(cells[n - 1].1 as int)
    }
}

/// Offsets ascend strictly.
pub open spec fn ascending(cells: Cells) -> bool {
    forall|i: int, j: int| 0 <= i < j < cells.len() ==> cells[i].0 < cells[j].0
}

pub proof fn lemma_merged_len(cells: Cells)
    requires
        ascending(cells),
        cells.len() > 0,
    ensures
        merged(cells).len() == cells.last().0 - cells[0].0 + 1,
    decreases cells.len(),
{
    if cells.len() > 1 {
        let n = cells.len() as int;
        let init = cells.drop_last();
        assert forall|i: int, j: int| 0 <= i < j < init.len() implies init[i].0 < init[j].0 by {
            assert(cells[i].0 < cells[j].0);
        }
        lemma_merged_len(init);
        assert(cells[n - 2].0 < cells[n - 1].0);
    }
}

/// The run that covers the cells `from..to`.
pub open spec fn span_run(cells: Cells, from: int, to: int) -> message::Run {
    message::Run { start: cells[from].0 as int, deltas: merged(cells.subrange(from, to)) }
}

/// Non-zero cells of one segment.
pub open spec fn edits_cells(edits: Edits) -> nat
    decreases edits.len(),
{
    if edits.len() == 0 {
        0
    } else {
        edits_cells(edits.drop_last()) + edits.last().1.len()
    }
}

/// Non-zero cells of all segments.
pub open spec fn all_cells(segs: Seq<Edits>) -> nat
    decreases segs.len(),
{
    if segs.len() == 0 {
        0
    } else {
        all_cells(segs.drop_last()) + edits_cells(segs.last())
    }
}

/// Rows over all segments.
pub open spec fn listed_rows(segs: Seq<Edits>) -> nat
    decreases segs.len(),
{
    if segs.len() == 0 {
        0
    } else {
        listed_rows(segs.drop_last()) + segs.last().len()
    }
}

/// A message has one row for each row of the edits.
pub proof fn lemma_listed_rows(l: DeltaWireLayout, segs: Seq<Edits>)
    ensures
        all_rows(l, segs).len() == listed_rows(segs),
    decreases segs.len(),
{
    if segs.len() > 0 {
        lemma_listed_rows(l, segs.drop_last());
    }
}

/// A row has no more non-zero cells than encoded deltas.
pub proof fn lemma_cells_le_runs_cells(max_gap: nat, cells: Cells)
    requires
        ascending(cells),
    ensures
        cells.len() <= message::runs_cells(split(max_gap, cells)),
        cells.len() > 0 ==> split(max_gap, cells).len() > 0,
    decreases cells.len(),
{
    if cells.len() > 0 {
        let init = cells.drop_last();
        assert forall|i: int, j: int| 0 <= i < j < init.len() implies init[i].0 < init[j].0 by {
            assert(cells[i].0 < cells[j].0);
        }
        lemma_cells_le_runs_cells(max_gap, init);
        let before = split(max_gap, init);
        let runs = split(max_gap, cells);
        if starts_run(max_gap, cells, cells.len() - 1) {
            assert(runs.drop_last() =~= before);
        } else {
            assert(runs.drop_last() =~= before.drop_last());
        }
    }
}

// ---------------------------------------------------------------- counts of prefixes
pub proof fn lemma_counts_append(a: Seq<message::Row>, b: Seq<message::Row>)
    ensures
        message::total_runs(a + b) == message::total_runs(a) + message::total_runs(b),
        message::total_cells(a + b) == message::total_cells(a) + message::total_cells(b),
    decreases b.len(),
{
    if b.len() == 0 {
        assert(a + b =~= a);
    } else {
        lemma_counts_append(a, b.drop_last());
        assert((a + b).drop_last() =~= a + b.drop_last());
    }
}

/// The rows of the first segments, and of the first edits of the next one, come first.
pub proof fn lemma_all_rows_prefix(l: DeltaWireLayout, segs: Seq<Edits>, j: int, i: int)
    requires
        0 <= j < segs.len(),
        0 <= i <= segs[j].len(),
    ensures
        (all_rows(l, segs.take(j)) + segment_rows(l, j, segs[j]).take(i)).is_prefix_of(
            all_rows(l, segs),
        ),
    decreases segs.len(),
{
    let n = segs.len() as int;
    let p = all_rows(l, segs.take(j)) + segment_rows(l, j, segs[j]).take(i);
    if j == n - 1 {
        assert(segs.take(j) =~= segs.drop_last());
        assert(all_rows(l, segs).take(p.len() as int) =~= p);
    } else {
        let init = segs.drop_last();
        lemma_all_rows_prefix(l, init, j, i);
        assert(init.take(j) =~= segs.take(j));
        assert(p == all_rows(l, init).take(p.len() as int));
        assert(all_rows(l, segs).take(p.len() as int) =~= p);
    }
}

/// Bits of runs in closed form.
pub proof fn lemma_runs_bits_len(l: DeltaWireLayout, runs: Seq<message::Run>)
    requires
        runs.len() > 0,
    ensures
        message::runs_bits(l, runs).len() + 1 == runs.len() * (2 * l.offset_bits as nat + 1)
            + message::runs_cells(runs) * l.delta_bits as nat,
    decreases runs.len(),
{
    let d = l.delta_bits as nat;
    let o = 2 * l.offset_bits as nat + 1;
    let n = runs.len();
    let last = runs.last();
    codec::lemma_run_bits_len(l, last);
    let c0 = message::runs_cells(runs.drop_last());
    assert((c0 + last.deltas.len()) * d == c0 * d + last.deltas.len() * d) by (nonlinear_arith);
    if n == 1 {
        assert(runs.drop_last() =~= Seq::<message::Run>::empty());
        assert(c0 == 0);
        assert(runs[0] == last);
    } else {
        lemma_runs_bits_len(l, runs.drop_last());
        assert((n - 1) * o + o == n * o) by (nonlinear_arith);
    }
}

/// Bits of one row in closed form.
pub proof fn lemma_row_bits_len(l: DeltaWireLayout, row: message::Row)
    requires
        row.runs.len() > 0,
    ensures
        message::row_bits(l, row).len() == 1 + l.bucket_bits as nat + row.runs.len() * (2
            * l.offset_bits as nat + 1) + message::runs_cells(row.runs) * l.delta_bits as nat,
{
    lemma_runs_bits_len(l, row.runs);
}

/// Bits of rows in closed form.
pub proof fn lemma_rows_bits_len(l: DeltaWireLayout, rows: Seq<message::Row>)
    requires
        forall|i: int| 0 <= i < rows.len() ==> (#[trigger] rows[i]).runs.len() > 0,
    ensures
        message::rows_bits(l, rows).len() == rows.len() * (1 + l.bucket_bits as nat)
            + message::total_runs(rows) * (2 * l.offset_bits as nat + 1) + message::total_cells(rows)
            * l.delta_bits as nat,
    decreases rows.len(),
{
    let b = 1 + l.bucket_bits as nat;
    let o = 2 * l.offset_bits as nat + 1;
    let d = l.delta_bits as nat;
    if rows.len() > 0 {
        let n = rows.len();
        let init = rows.drop_last();
        let row = rows.last();
        assert forall|i: int| 0 <= i < init.len() implies (#[trigger] init[i]).runs.len() > 0 by {
            assert(rows[i].runs.len() > 0);
        }
        lemma_rows_bits_len(l, init);
        assert(rows[n - 1] == row);
        lemma_row_bits_len(l, row);
        let r0 = message::total_runs(init);
        let c0 = message::total_cells(init);
        let r1 = row.runs.len();
        let c1 = message::runs_cells(row.runs);
        assert((n - 1) * b + b == n * b) by (nonlinear_arith);
        assert((r0 + r1) * o == r0 * o + r1 * o) by (nonlinear_arith);
        assert((c0 + c1) * d == c0 * d + c1 * d) by (nonlinear_arith);
    } else {
        assert(0 * b == 0 && 0 * o == 0 && 0 * d == 0) by (nonlinear_arith);
    }
}

} // verus!
