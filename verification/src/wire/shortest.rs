//! The encoder's grouping of cells into runs takes the fewest bits.
//!
//! A further run costs its two offsets and a flag; bridging a gap costs one delta per zero
//! cell. The maximal gap is where the second stops being the cheaper one.
use vstd::arithmetic::div_mod::*;
use vstd::prelude::*;

use crate::wire::layout::DeltaWireLayout;
use crate::wire::message;
use crate::wire::sparse;
use crate::wire::sparse::Cells;

verus! {

/// Run `r` carries the cell: the cell's offset lies in the run, where its delta stands.
pub open spec fn carries(r: message::Run, cell: (u16, i64)) -> bool {
    &&& r.start <= cell.0 < message::run_end(r)
    &&& r.deltas[cell.0 - r.start] == cell.1
}

/// Every cell is carried by one of the runs.
pub open spec fn covers(runs: Seq<message::Run>, cells: Cells) -> bool {
    forall|k: int|
        0 <= k < cells.len() ==> exists|i: int|
            0 <= i < runs.len() && carries(#[trigger] runs[i], #[trigger] cells[k])
}

/// Bits of the offsets and the flag of one run.
pub open spec fn run_cost(l: DeltaWireLayout) -> int {
    2 * l.offset_bits + 1
}

/// Bits that runs take in a row: offsets, flags and deltas.
pub open spec fn runs_cost(l: DeltaWireLayout, runs: Seq<message::Run>) -> int {
    runs.len() * run_cost(l) + message::runs_cells(runs) * l.delta_bits
}

/// The maximal gap is the longest one whose zeros cost no more than a further run.
pub open spec fn gap_ok(l: DeltaWireLayout) -> bool {
    &&& l.delta_bits >= 1
    &&& l.max_gap as int == run_cost(l) / (l.delta_bits as int)
}

/// Zero cells between cell `k` and the one before it.
spec fn gap(cells: Cells, k: int) -> int {
    cells[k].0 - cells[k - 1].0 - 1
}

/// Least bits for the first `n` cells: each gap is bridged or opens a run, whichever is the
/// cheaper.
spec fn least(l: DeltaWireLayout, cells: Cells, n: int) -> int
    decreases n,
{
    if n <= 0 {
        0
    } else if n == 1 {
        run_cost(l) + l.delta_bits
    } else {
        let bridge = gap(cells, n - 1) * l.delta_bits;
        least(l, cells, n - 1) + l.delta_bits + if bridge <= run_cost(l) {
            bridge
        } else {
            run_cost(l)
        }
    }
}

// ---------------------------------------------------------------- the encoder's grouping
proof fn lemma_least_prefix(l: DeltaWireLayout, a: Cells, b: Cells, n: int)
    requires
        n <= a.len(),
        n <= b.len(),
        forall|k: int| 0 <= k < n ==> a[k] == b[k],
    ensures
        least(l, a, n) == least(l, b, n),
    decreases n,
{
    if n > 1 {
        lemma_least_prefix(l, a, b, n - 1);
    }
}

/// The encoder's runs take the least bits.
proof fn lemma_split_cost(l: DeltaWireLayout, cells: Cells)
    requires
        gap_ok(l),
        sparse::ascending(cells),
    ensures
        runs_cost(l, sparse::split(l.max_gap as nat, cells)) == least(
            l,
            cells,
            cells.len() as int,
        ),
        cells.len() > 0 ==> sparse::split(l.max_gap as nat, cells).len() > 0,
    decreases cells.len(),
{
    let g = l.max_gap as nat;
    let o = run_cost(l);
    let d = l.delta_bits as int;
    let n = cells.len() as int;
    let runs = sparse::split(g, cells);
    if n == 0 {
        assert(0 * o == 0 && 0 * d == 0) by (nonlinear_arith);
    } else {
        let init = cells.drop_last();
        assert(sparse::ascending(init)) by {
            assert forall|i: int, j: int| 0 <= i < j < init.len() implies init[i].0
                < init[j].0 by {
                assert(cells[i].0 < cells[j].0);
            }
        }
        lemma_split_cost(l, init);
        lemma_least_prefix(l, init, cells, n - 1);
        let before = sparse::split(g, init);
        let m = before.len() as int;
        let c = message::runs_cells(before) as int;
        if n > 1 {
            let z = gap(cells, n - 1);
            assert(cells[n - 2].0 < cells[n - 1].0);
            lemma_fundamental_div_mod(o, d);
            lemma_mod_bound(o, d);
            let q = o / d;
            assert(z <= q <==> z * d <= o) by (nonlinear_arith)
                requires
                    o == d * q + o % d,
                    0 <= o % d < d,
            ;
        }
        if sparse::starts_run(g, cells, n - 1) {
            assert(runs.drop_last() =~= before);
            assert((m + 1) * o == m * o + o) by (nonlinear_arith);
            assert((c + 1) * d == c * d + d) by (nonlinear_arith);
        } else {
            let z = gap(cells, n - 1);
            assert(runs.drop_last() =~= before.drop_last());
            assert(before.len() == runs.len());
            assert((c + z + 1) * d == c * d + z * d + d) by (nonlinear_arith);
        }
    }
}

/// The encoder's runs carry the cells.
proof fn lemma_split_covers(max_gap: nat, cells: Cells)
    requires
        sparse::ascending(cells),
    ensures
        covers(sparse::split(max_gap, cells), cells),
        cells.len() > 0 ==> {
            let runs = sparse::split(max_gap, cells);
            &&& runs.len() > 0
            &&& message::run_end(runs.last()) == cells.last().0 + 1
            &&& runs.last().start <= cells.last().0
        },
    decreases cells.len(),
{
    let n = cells.len() as int;
    let runs = sparse::split(max_gap, cells);
    if n > 0 {
        let init = cells.drop_last();
        assert(sparse::ascending(init)) by {
            assert forall|i: int, j: int| 0 <= i < j < init.len() implies init[i].0
                < init[j].0 by {
                assert(cells[i].0 < cells[j].0);
            }
        }
        lemma_split_covers(max_gap, init);
        let before = sparse::split(max_gap, init);
        let starts = sparse::starts_run(max_gap, cells, n - 1);
        if n > 1 {
            assert(init.last() == cells[n - 2]);
            assert(cells[n - 2].0 < cells[n - 1].0);
        }
        let last = runs.len() - 1;
        assert(carries(runs[last], cells[n - 1]));
        assert forall|k: int| 0 <= k < n implies exists|i: int|
            0 <= i < runs.len() && carries(#[trigger] runs[i], #[trigger] cells[k]) by {
            if k < n - 1 {
                assert(init[k] == cells[k]);
                let i = choose|i: int|
                    0 <= i < before.len() && carries(#[trigger] before[i], init[k]);
                if !starts && i == last {
                    let x = init[k].0 - before[i].start;
                    assert(runs[i].deltas[x] == before[i].deltas[x]);
                } else {
                    assert(runs[i] == before[i]);
                }
                assert(carries(runs[i], cells[k]));
            }
        }
    }
}

// ---------------------------------------------------------------- any grouping
/// Bits of a run as far as it lies below `x`.
spec fn run_cut(l: DeltaWireLayout, r: message::Run, x: int) -> int {
    if r.start >= x {
        0
    } else {
        run_cost(l) + l.delta_bits * (if message::run_end(r) <= x {
            message::run_end(r)
        } else {
            x
        } - r.start)
    }
}

/// Bits of runs as far as they lie below `x`.
spec fn cut(l: DeltaWireLayout, runs: Seq<message::Run>, x: int) -> int
    decreases runs.len(),
{
    if runs.len() == 0 {
        0
    } else {
        cut(l, runs.drop_last(), x) + run_cut(l, runs.last(), x)
    }
}

proof fn lemma_run_cut(l: DeltaWireLayout, r: message::Run, x: int, y: int)
    requires
        x <= y,
    ensures
        0 <= run_cut(l, r, x) <= run_cut(l, r, y),
        run_cut(l, r, y) <= run_cost(l) + r.deltas.len() * l.delta_bits,
{
    let d = l.delta_bits as int;
    let n = r.deltas.len() as int;
    let u = if message::run_end(r) <= x {
        n
    } else {
        x - r.start
    };
    let v = if message::run_end(r) <= y {
        n
    } else {
        y - r.start
    };
    if r.start < y {
        assert(0 <= d * v <= n * d) by (nonlinear_arith)
            requires
                0 <= v <= n,
                0 <= d,
        ;
        if r.start < x {
            assert(0 <= d * u <= d * v) by (nonlinear_arith)
                requires
                    0 <= u <= v,
                    0 <= d,
            ;
        }
    } else {
        assert(0 <= n * d) by (nonlinear_arith)
            requires
                0 <= n,
                0 <= d,
        ;
    }
}

/// What lies below `x` takes no more bits than the whole.
proof fn lemma_cut_total(l: DeltaWireLayout, runs: Seq<message::Run>, x: int)
    ensures
        0 <= cut(l, runs, x) <= runs_cost(l, runs),
    decreases runs.len(),
{
    let o = run_cost(l);
    let d = l.delta_bits as int;
    if runs.len() == 0 {
        assert(0 * o == 0 && 0 * d == 0) by (nonlinear_arith);
    } else {
        let init = runs.drop_last();
        let r = runs.last();
        lemma_cut_total(l, init, x);
        lemma_run_cut(l, r, x, x);
        let m = init.len() as int;
        let c = message::runs_cells(init) as int;
        let k = r.deltas.len() as int;
        assert((m + 1) * o == m * o + o) by (nonlinear_arith);
        assert((c + k) * d == c * d + k * d) by (nonlinear_arith);
    }
}

/// Between `x` and `y` every run adds at least nothing, and run `i` adds what it adds.
proof fn lemma_cut_step(l: DeltaWireLayout, runs: Seq<message::Run>, x: int, y: int, i: int)
    requires
        x <= y,
    ensures
        cut(l, runs, y) >= cut(l, runs, x),
        0 <= i < runs.len() ==> cut(l, runs, y) - cut(l, runs, x) >= run_cut(l, runs[i], y)
            - run_cut(l, runs[i], x),
    decreases runs.len(),
{
    if runs.len() > 0 {
        let init = runs.drop_last();
        lemma_cut_step(l, init, x, y, i);
        lemma_run_cut(l, runs.last(), x, y);
        if 0 <= i < init.len() {
            assert(init[i] == runs[i]);
        }
    }
}

/// Runs that carry the cells take at least the least bits up to each of them.
proof fn lemma_cut_least(l: DeltaWireLayout, runs: Seq<message::Run>, cells: Cells, n: int)
    requires
        sparse::ascending(cells),
        covers(runs, cells),
        1 <= n <= cells.len(),
    ensures
        cut(l, runs, cells[n - 1].0 + 1) >= least(l, cells, n),
    decreases n,
{
    let d = l.delta_bits as int;
    let o = run_cost(l);
    let y = cells[n - 1].0 + 1;
    let i = choose|i: int|
        0 <= i < runs.len() && carries(#[trigger] runs[i], cells[n - 1]);
    assert(carries(runs[i], cells[n - 1]));
    let r = runs[i];
    if n == 1 {
        lemma_cut_total(l, runs, r.start);
        lemma_cut_step(l, runs, r.start, y, i);
        assert(d * (y - r.start) >= d) by (nonlinear_arith)
            requires
                y - r.start >= 1,
                d >= 0,
        ;
    } else {
        let x = cells[n - 2].0 + 1;
        assert(cells[n - 2].0 < cells[n - 1].0);
        lemma_cut_least(l, runs, cells, n - 1);
        lemma_cut_step(l, runs, x, y, i);
        let z = gap(cells, n - 1);
        if r.start < x {
            assert(d * (y - r.start) == d * (x - r.start) + z * d + d) by (nonlinear_arith)
                requires
                    y - x == z + 1,
            ;
        } else {
            assert(d * (y - r.start) >= d) by (nonlinear_arith)
                requires
                    y - r.start >= 1,
                    d >= 0,
            ;
        }
    }
}

// ---------------------------------------------------------------- laws
/// The encoder's grouping of a row's cells carries the cells, and no other runs that carry
/// them, disjoint or not, take fewer bits.
pub proof fn law_split_is_shortest(l: DeltaWireLayout, cells: Cells, runs: Seq<message::Run>)
    requires
        gap_ok(l),
        sparse::ascending(cells),
        covers(runs, cells),
    ensures
        covers(sparse::split(l.max_gap as nat, cells), cells),
        runs_cost(l, sparse::split(l.max_gap as nat, cells)) <= runs_cost(l, runs),
{
    let n = cells.len() as int;
    lemma_split_covers(l.max_gap as nat, cells);
    lemma_split_cost(l, cells);
    if n > 0 {
        lemma_cut_least(l, runs, cells, n);
        lemma_cut_total(l, runs, cells[n - 1].0 + 1);
    } else {
        lemma_cut_total(l, runs, 0);
    }
}

/// Bits of rows as a sum over the rows.
proof fn lemma_rows_cost(l: DeltaWireLayout, a: Seq<message::Row>, b: Seq<message::Row>)
    requires
        a.len() == b.len(),
        forall|i: int| 0 <= i < a.len() ==> (#[trigger] a[i]).runs.len() > 0,
        forall|i: int| 0 <= i < b.len() ==> (#[trigger] b[i]).runs.len() > 0,
        forall|i: int|
            0 <= i < a.len() ==> runs_cost(l, (#[trigger] a[i]).runs) <= runs_cost(l, b[i].runs),
    ensures
        message::rows_bits(l, a).len() <= message::rows_bits(l, b).len(),
    decreases a.len(),
{
    if a.len() > 0 {
        let n = a.len() as int;
        let p = a.drop_last();
        let q = b.drop_last();
        assert forall|i: int| 0 <= i < p.len() implies (#[trigger] p[i]).runs.len() > 0
            && runs_cost(l, p[i].runs) <= runs_cost(l, q[i].runs) by {
            assert(p[i] == a[i] && q[i] == b[i]);
        }
        assert forall|i: int| 0 <= i < q.len() implies (#[trigger] q[i]).runs.len() > 0 by {
            assert(q[i] == b[i]);
        }
        lemma_rows_cost(l, p, q);
        assert(a[n - 1] == a.last() && b[n - 1] == b.last());
        sparse::lemma_row_bits_len(l, a.last());
        sparse::lemma_row_bits_len(l, b.last());
    }
}

/// Of all messages that carry the cells of the given valid rows, row by row, the one with the
/// encoder's runs is the shortest.
pub proof fn law_rows_are_shortest(
    l: DeltaWireLayout,
    epoch: u64,
    rows: Seq<message::Row>,
    other: Seq<message::Row>,
)
    requires
        gap_ok(l),
        l.plaintext_bits <= 62,
        message::rows_valid(l, rows),
        other.len() == rows.len(),
        forall|i: int|
            0 <= i < rows.len() ==> covers(
                (#[trigger] other[i]).runs,
                sparse::row_cells(rows[i].runs),
            ),
    ensures
        message::message_bits(l, epoch, rows).len() <= message::message_bits(l, epoch, other).len(),
{
    assert forall|i: int| 0 <= i < rows.len() implies (#[trigger] rows[i]).runs.len() > 0
        && other[i].runs.len() > 0 && runs_cost(l, rows[i].runs) <= runs_cost(
        l,
        other[i].runs,
    ) by {
        let cells = sparse::row_cells(rows[i].runs);
        assert(message::row_valid(l, rows[i]));
        sparse::lemma_split_row_cells(l, rows[i].runs);
        assert(covers(other[i].runs, cells));
        law_split_is_shortest(l, cells, other[i].runs);
        let k = choose|k: int|
            0 <= k < other[i].runs.len() && carries(#[trigger] other[i].runs[k], cells[0]);
        assert(carries(other[i].runs[k], cells[0]));
    }
    assert forall|i: int| 0 <= i < other.len() implies (#[trigger] other[i]).runs.len() > 0 by {
        assert(rows[i].runs.len() > 0);
    }
    lemma_rows_cost(l, rows, other);
}

} // verus!
