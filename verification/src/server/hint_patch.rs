//! Slot writes folded into sparse row deltas.
//!
//! Every write adds its change to the cells of its slot. The sums are handed out by segment,
//! row by row and cell by cell in ascending order, without zeros and without empty rows.
use vstd::arithmetic::div_mod::*;
use vstd::prelude::*;

use crate::backend::edits;
use crate::backend::patch;
use crate::geometry::CuckooParams;
use crate::server::slots;
use crate::server::slots::{pack_slot_cells, SlotMutation};
use crate::wire::hint_delta;
use crate::wire::hint_delta::SegmentRowDeltas;
use crate::wire::sparse::{Cells, Edits};

verus! {

// ---------------------------------------------------------------- sums
/// What a write adds to cell `c` of its slot.
pub open spec fn cell_delta(params: CuckooParams, m: SlotMutation, c: int) -> int {
    slots::slot_cell(params, m.new_fingerprint, m.new_value_cells@, c) - slots::slot_cell(
        params,
        m.old_fingerprint,
        m.old_value_cells@,
        c,
    )
}

/// Whether a write changes slot cells of row `r` of segment `j`.
pub open spec fn hits_row(params: CuckooParams, m: SlotMutation, j: int, r: int) -> bool {
    &&& m.bucket as int / params.spec_segment_size() as int == j
    &&& m.bucket as int % params.spec_segment_size() as int == r
}

/// What a write adds to the cell at offset `o` of row `r` of segment `j`.
pub open spec fn mutation_delta(
    params: CuckooParams,
    m: SlotMutation,
    j: int,
    r: int,
    o: int,
) -> int {
    let cps = params.spec_cells_per_slot();
    if hits_row(params, m, j, r) && m.slot * cps <= o < m.slot * cps + cps {
        cell_delta(params, m, o - m.slot * cps)
    } else {
        0
    }
}

/// What the writes add to the cell at offset `o` of row `r` of segment `j`.
pub open spec fn total_delta(
    params: CuckooParams,
    muts: Seq<SlotMutation>,
    j: int,
    r: int,
    o: int,
) -> int
    decreases muts.len(),
{
    if muts.len() == 0 {
        0
    } else {
        total_delta(params, muts.drop_last(), j, r, o) + mutation_delta(
            params,
            muts.last(),
            j,
            r,
            o,
        )
    }
}

/// The sum of the deltas of cell `o` of row `r`.
pub open spec fn edit_total(rows: Edits, r: int, o: int) -> int
    decreases rows.len(),
{
    if rows.len() == 0 {
        0
    } else {
        edit_total(rows.drop_last(), r, o) + if rows.last().0 == r {
            edits::cell_total(rows.last().1, o)
        } else {
            0
        }
    }
}

// ---------------------------------------------------------------- order
/// Offsets ascend strictly and lie in the row.
pub open spec fn cells_sorted(cells: Cells, width: int) -> bool {
    &&& forall|i: int| 0 <= i < cells.len() ==> (#[trigger] cells[i]).0 < width
    &&& forall|i: int, k: int| 0 <= i < k < cells.len() ==> cells[i].0 < cells[k].0
}

/// Rows ascend strictly and lie in the segment, and their cells are sorted.
pub open spec fn rows_sorted(rows: Edits, n_rows: int, width: int) -> bool {
    &&& forall|i: int|
        0 <= i < rows.len() ==> (#[trigger] rows[i]).0 < n_rows && cells_sorted(rows[i].1, width)
    &&& forall|i: int, k: int| 0 <= i < k < rows.len() ==> rows[i].0 < rows[k].0
}

/// No delta is zero.
pub open spec fn no_zeros(cells: Cells) -> bool {
    forall|i: int| 0 <= i < cells.len() ==> (#[trigger] cells[i]).1 != 0
}

/// No row is empty and no delta is zero.
pub open spec fn pruned(rows: Edits) -> bool {
    forall|i: int|
        0 <= i < rows.len() ==> (#[trigger] rows[i]).1.len() > 0 && no_zeros(rows[i].1)
}

/// The edits of the segments are the folded writes: sorted, pruned, and with their sums.
pub open spec fn is_fold(segs: Seq<Edits>, params: CuckooParams, muts: Seq<SlotMutation>) -> bool {
    &&& segs.len() == params.spec_arity()
    &&& forall|j: int|
        0 <= j < segs.len() ==> {
            &&& rows_sorted(
                #[trigger] segs[j],
                params.spec_segment_size() as int,
                params.spec_row_width(),
            )
            &&& pruned(segs[j])
            &&& forall|r: int, o: int|
                #[trigger] edit_total(segs[j], r, o) == total_delta(params, muts, j, r, o)
        }
}

// ---------------------------------------------------------------- lemmas on sums
/// The sums of two parts of a row add up.
pub proof fn lemma_cell_total_concat(a: Cells, b: Cells, o: int)
    ensures
        edits::cell_total(a + b, o) == edits::cell_total(a, o) + edits::cell_total(b, o),
    decreases b.len(),
{
    if b.len() == 0 {
        assert(a + b =~= a);
    } else {
        assert((a + b).drop_last() =~= a + b.drop_last());
        lemma_cell_total_concat(a, b.drop_last(), o);
    }
}

/// The sum of one cell.
pub proof fn lemma_cell_total_one(x: (u16, i64), o: int)
    ensures
        edits::cell_total(seq![x], o) == if x.0 == o {
            x.1 as int
        } else {
            0
        },
{
    assert(seq![x].drop_last() =~= Seq::<(u16, i64)>::empty());
    assert(edits::cell_total(Seq::<(u16, i64)>::empty(), o) == 0);
}

/// A cell that is not there has no sum.
pub proof fn lemma_cell_total_absent(cells: Cells, o: int)
    requires
        forall|i: int| 0 <= i < cells.len() ==> (#[trigger] cells[i]).0 != o,
    ensures
        edits::cell_total(cells, o) == 0,
{
    patch::lemma_column_total_absent(cells, |off: u16| off as int, o);
}

/// In sorted cells a cell's sum is its delta.
pub proof fn lemma_cell_total_at(cells: Cells, width: int, i: int)
    requires
        cells_sorted(cells, width),
        0 <= i < cells.len(),
    ensures
        edits::cell_total(cells, cells[i].0 as int) == cells[i].1,
{
    let a = cells.take(i);
    let b = cells.skip(i + 1);
    let x = cells[i];
    assert(cells =~= a + (seq![x] + b));
    lemma_cell_total_concat(a, seq![x] + b, x.0 as int);
    lemma_cell_total_concat(seq![x], b, x.0 as int);
    lemma_cell_total_one(x, x.0 as int);
    lemma_cell_total_absent(a, x.0 as int);
    lemma_cell_total_absent(b, x.0 as int);
}

/// The sums of two lists of rows add up.
pub proof fn lemma_edit_total_concat(a: Edits, b: Edits, r: int, o: int)
    ensures
        edit_total(a + b, r, o) == edit_total(a, r, o) + edit_total(b, r, o),
    decreases b.len(),
{
    if b.len() == 0 {
        assert(a + b =~= a);
    } else {
        assert((a + b).drop_last() =~= a + b.drop_last());
        lemma_edit_total_concat(a, b.drop_last(), r, o);
    }
}

/// The sum of one row.
pub proof fn lemma_edit_total_one(x: (u32, Cells), r: int, o: int)
    ensures
        edit_total(seq![x], r, o) == if x.0 == r {
            edits::cell_total(x.1, o)
        } else {
            0
        },
{
    assert(seq![x].drop_last() =~= Seq::<(u32, Cells)>::empty());
    assert(edit_total(Seq::<(u32, Cells)>::empty(), r, o) == 0);
}

/// A row that is not there has no sum.
pub proof fn lemma_edit_total_absent(rows: Edits, r: int, o: int)
    requires
        forall|i: int| 0 <= i < rows.len() ==> (#[trigger] rows[i]).0 != r,
    ensures
        edit_total(rows, r, o) == 0,
    decreases rows.len(),
{
    if rows.len() > 0 {
        let init = rows.drop_last();
        assert forall|i: int| 0 <= i < init.len() implies (#[trigger] init[i]).0 != r by {
            assert(init[i] == rows[i]);
        }
        assert(rows[rows.len() - 1].0 != r);
        lemma_edit_total_absent(init, r, o);
    }
}

/// The sums of rows with row `i` taken apart.
pub proof fn lemma_edit_total_split(rows: Edits, i: int, r: int, o: int)
    requires
        0 <= i < rows.len(),
    ensures
        edit_total(rows, r, o) == edit_total(rows.take(i), r, o) + (if rows[i].0 == r {
            edits::cell_total(rows[i].1, o)
        } else {
            0
        }) + edit_total(rows.skip(i + 1), r, o),
{
    let a = rows.take(i);
    let b = rows.skip(i + 1);
    assert(rows =~= a + (seq![rows[i]] + b));
    lemma_edit_total_concat(a, seq![rows[i]] + b, r, o);
    lemma_edit_total_concat(seq![rows[i]], b, r, o);
    lemma_edit_total_one(rows[i], r, o);
}

/// In sorted rows a row's sums are those of its cells.
pub proof fn lemma_edit_total_at(rows: Edits, n_rows: int, width: int, i: int, o: int)
    requires
        rows_sorted(rows, n_rows, width),
        0 <= i < rows.len(),
    ensures
        edit_total(rows, rows[i].0 as int, o) == edits::cell_total(rows[i].1, o),
{
    let r = rows[i].0 as int;
    lemma_edit_total_split(rows, i, r, o);
    lemma_edit_total_absent(rows.take(i), r, o);
    lemma_edit_total_absent(rows.skip(i + 1), r, o);
}

// ---------------------------------------------------------------- adding up
/// The place of the first cell whose offset is not below `o`.
fn find_cell(cells: &Vec<(u16, i64)>, o: u16) -> (i: usize)
    ensures
        i <= cells@.len(),
        forall|k: int| 0 <= k < i ==> (#[trigger] cells@[k]).0 < o,
        i < cells@.len() ==> cells@[i as int].0 >= o,
{
    let n: usize = cells.len();
    let mut i: usize = 0;
    while i < n
        invariant
            i <= n == cells@.len(),
            forall|k: int| 0 <= k < i ==> (#[trigger] cells@[k]).0 < o,
        decreases n - i,
    {
        if cells[i].0 >= o {
            return i;
        }
        i = i + 1;
    }
    i
}

/// Adds a delta to the cell at offset `o`.
fn add_cell(cells: &mut Vec<(u16, i64)>, o: u16, d: i64, Ghost(width): Ghost<int>)
    requires
        cells_sorted(old(cells)@, width),
        o < width,
        i64::MIN <= edits::cell_total(old(cells)@, o as int) + d <= i64::MAX,
    ensures
        cells_sorted(final(cells)@, width),
        forall|x: int|
            #[trigger] edits::cell_total(final(cells)@, x) == edits::cell_total(old(cells)@, x) + if x
                == o {
                d as int
            } else {
                0
            },
{
    let i: usize = find_cell(cells, o);
    let ghost before = cells@;
    if i < cells.len() && cells[i].0 == o {
        proof {
            lemma_cell_total_at(before, width, i as int);
        }
        let sum: i64 = cells[i].1 + d;
        cells.set(i, (o, sum));
        proof {
            let a = before.take(i as int);
            let b = before.skip(i + 1);
            assert(before =~= a + (seq![before[i as int]] + b));
            assert(cells@ =~= a + (seq![(o, sum)] + b));
            assert forall|x: int| #[trigger] edits::cell_total(cells@, x) == edits::cell_total(
                before,
                x,
            ) + if x == o {
                d as int
            } else {
                0
            } by {
                lemma_cell_total_concat(a, seq![before[i as int]] + b, x);
                lemma_cell_total_concat(a, seq![(o, sum)] + b, x);
                lemma_cell_total_concat(seq![before[i as int]], b, x);
                lemma_cell_total_concat(seq![(o, sum)], b, x);
                lemma_cell_total_one(before[i as int], x);
                lemma_cell_total_one((o, sum), x);
            }
        }
    } else {
        cells.insert(i, (o, d));
        proof {
            let a = before.take(i as int);
            let b = before.skip(i as int);
            assert(before =~= a + b);
            assert(cells@ =~= a + (seq![(o, d)] + b));
            assert forall|x: int| #[trigger] edits::cell_total(cells@, x) == edits::cell_total(
                before,
                x,
            ) + if x == o {
                d as int
            } else {
                0
            } by {
                lemma_cell_total_concat(a, b, x);
                lemma_cell_total_concat(a, seq![(o, d)] + b, x);
                lemma_cell_total_concat(seq![(o, d)], b, x);
                lemma_cell_total_one((o, d), x);
            }
            assert forall|x: int, y: int| 0 <= x < y < cells@.len() implies cells@[x].0
                < cells@[y].0 by {
                if x < i && y > i {
                    assert(before[x].0 < before[y - 1].0);
                } else if x > i {
                    assert(before[x - 1].0 < before[y - 1].0);
                } else if x == i {
                    assert(y - 1 >= i);
                    if y - 1 > i {
                        assert(before[i as int].0 < before[y - 1].0);
                    }
                }
            }
        }
    }
}

/// The place of row `r`, which is put in empty where it is not there.
fn find_row(rows: &mut SegmentRowDeltas, r: u32, Ghost(n_rows): Ghost<int>, Ghost(width): Ghost<
    int,
>) -> (i: usize)
    requires
        rows_sorted(hint_delta::edits_view(old(rows)@), n_rows, width),
        r < n_rows,
    ensures
        rows_sorted(hint_delta::edits_view(final(rows)@), n_rows, width),
        i < final(rows)@.len(),
        final(rows)@[i as int].0 == r,
        forall|x: int, o: int|
            #[trigger] edit_total(hint_delta::edits_view(final(rows)@), x, o) == edit_total(
                hint_delta::edits_view(old(rows)@),
                x,
                o,
            ),
{
    let ghost before = hint_delta::edits_view(rows@);
    let n: usize = rows.len();
    let mut i: usize = 0;
    while i < n
        invariant
            i <= n == rows@.len(),
            rows@ == old(rows)@,
            before == hint_delta::edits_view(rows@),
            rows_sorted(before, n_rows, width),
            forall|k: int| 0 <= k < i ==> (#[trigger] before[k]).0 < r,
        ensures
            i < n ==> before[i as int].0 > r,
        decreases n - i,
    {
        let x: u32 = rows[i].0;
        assert(before[i as int].0 == x);
        if x == r {
            return i;
        }
        if x > r {
            break;
        }
        i = i + 1;
    }
    rows.insert(i, (r, Vec::new()));
    proof {
        let after = hint_delta::edits_view(rows@);
        let empty: (u32, Cells) = (r, Seq::empty());
        let a = before.take(i as int);
        let b = before.skip(i as int);
        assert(before =~= a + b);
        assert(after =~= a + (seq![empty] + b)) by {
            assert(after[i as int].1 =~= Seq::<(u16, i64)>::empty());
        }
        assert forall|x: int, o: int| #[trigger] edit_total(after, x, o) == edit_total(
            before,
            x,
            o,
        ) by {
            lemma_edit_total_concat(a, b, x, o);
            lemma_edit_total_concat(a, seq![empty] + b, x, o);
            lemma_edit_total_concat(seq![empty], b, x, o);
            lemma_edit_total_one(empty, x, o);
            assert(edits::cell_total(Seq::<(u16, i64)>::empty(), o) == 0);
        }
        assert forall|k: int| 0 <= k < after.len() implies (#[trigger] after[k]).0 < n_rows
            && cells_sorted(after[k].1, width) by {
            if k < i {
                assert(after[k] == before[k]);
            } else if k > i {
                assert(after[k] == before[k - 1]);
            }
        }
        assert forall|x: int, y: int| 0 <= x < y < after.len() implies after[x].0 < after[y].0 by {
            if x < i && y < i {
                assert(before[x].0 < before[y].0);
            } else if x < i && y > i {
                assert(before[x].0 < before[y - 1].0);
            } else if x > i {
                assert(before[x - 1].0 < before[y - 1].0);
            } else if x == i {
                if y - 1 > i {
                    assert(before[i as int].0 < before[y - 1].0);
                }
            }
        }
    }
    i
}

/// Adds the change of a slot to the cells of row `r` from offset `base` on.
fn add_slot(
    rows: &mut SegmentRowDeltas,
    r: u32,
    base: usize,
    old_cells: &[u32],
    new_cells: &[u32],
    Ghost(n_rows): Ghost<int>,
    Ghost(width): Ghost<int>,
)
    requires
        rows_sorted(hint_delta::edits_view(old(rows)@), n_rows, width),
        r < n_rows,
        old_cells@.len() == new_cells@.len(),
        base + new_cells@.len() <= width <= usize::MAX,
        forall|c: int|
            0 <= c < new_cells@.len() && (#[trigger] new_cells@[c]) != old_cells@[c] ==> {
                &&& base + c <= u16::MAX
                &&& i64::MIN <= edit_total(
                    hint_delta::edits_view(old(rows)@),
                    r as int,
                    base + c,
                ) + new_cells@[c] - old_cells@[c] <= i64::MAX
            },
    ensures
        rows_sorted(hint_delta::edits_view(final(rows)@), n_rows, width),
        forall|x: int, o: int|
            #[trigger] edit_total(hint_delta::edits_view(final(rows)@), x, o) == edit_total(
                hint_delta::edits_view(old(rows)@),
                x,
                o,
            ) + if x == r && base <= o < base + new_cells@.len() {
                new_cells@[o - base] - old_cells@[o - base]
            } else {
                0
            },
{
    let ghost before = hint_delta::edits_view(rows@);
    let n: usize = new_cells.len();
    let i: usize = find_row(rows, r, Ghost(n_rows), Ghost(width));
    let mut c: usize = 0;
    while c < n
        invariant
            c <= n == new_cells@.len() == old_cells@.len(),
            i < rows@.len(),
            rows@[i as int].0 == r,
            r < n_rows,
            base + n <= width <= usize::MAX,
            before == hint_delta::edits_view(old(rows)@),
            forall|k: int|
                0 <= k < n && (#[trigger] new_cells@[k]) != old_cells@[k] ==> {
                    &&& base + k <= u16::MAX
                    &&& i64::MIN <= edit_total(before, r as int, base + k) + new_cells@[k]
                        - old_cells@[k] <= i64::MAX
                },
            rows_sorted(hint_delta::edits_view(rows@), n_rows, width),
            forall|x: int, o: int|
                #[trigger] edit_total(hint_delta::edits_view(rows@), x, o) == edit_total(
                    before,
                    x,
                    o,
                ) + if x == r && base <= o < base + c {
                    new_cells@[o - base] - old_cells@[o - base]
                } else {
                    0
                },
        decreases n - c,
    {
        let d: i64 = new_cells[c] as i64 - old_cells[c] as i64;
        if d != 0 {
            let ghost seg = rows@;
            let ghost view = hint_delta::edits_view(seg);
            let o: u16 = (base + c) as u16;
            proof {
                lemma_edit_total_at(view, n_rows, width, i as int, o as int);
                assert(view[i as int] == (seg[i as int].0, seg[i as int].1@));
                assert(edit_total(view, r as int, o as int) == edit_total(
                    before,
                    r as int,
                    o as int,
                ));
            }
            let (row, mut cells): (u32, Vec<(u16, i64)>) = rows.remove(i);
            let ghost kept = cells@;
            add_cell(&mut cells, o, d, Ghost(width));
            rows.insert(i, (row, cells));
            proof {
                let next = hint_delta::edits_view(rows@);
                assert(rows@ =~= seg.update(i as int, (row, cells)));
                assert(next =~= view.update(i as int, (row, cells@)));
                assert(next.take(i as int) =~= view.take(i as int));
                assert(next.skip(i + 1) =~= view.skip(i + 1));
                assert forall|x: int, p: int| #[trigger] edit_total(next, x, p) == edit_total(
                    before,
                    x,
                    p,
                ) + if x == r && base <= p < base + c + 1 {
                    new_cells@[p - base] - old_cells@[p - base]
                } else {
                    0
                } by {
                    lemma_edit_total_split(view, i as int, x, p);
                    lemma_edit_total_split(next, i as int, x, p);
                    assert(edit_total(view, x, p) == edit_total(before, x, p) + if x == r && base
                        <= p < base + c {
                        new_cells@[p - base] - old_cells@[p - base]
                    } else {
                        0
                    });
                    assert(edits::cell_total(cells@, p) == edits::cell_total(kept, p) + if p == o {
                        d as int
                    } else {
                        0
                    });
                }
                assert forall|k: int| 0 <= k < next.len() implies (#[trigger] next[k]).0 < n_rows
                    && cells_sorted(next[k].1, width) by {
                    assert(view[k].0 < n_rows);
                }
                assert forall|x: int, y: int| 0 <= x < y < next.len() implies next[x].0
                    < next[y].0 by {
                    assert(view[x].0 < view[y].0);
                }
            }
        }
        c = c + 1;
    }
}

// ---------------------------------------------------------------- pruning
/// The cells without zeros.
fn without_zeros(cells: &Vec<(u16, i64)>, Ghost(width): Ghost<int>) -> (kept: Vec<(u16, i64)>)
    requires
        cells_sorted(cells@, width),
    ensures
        cells_sorted(kept@, width),
        no_zeros(kept@),
        forall|o: int|
            #[trigger] edits::cell_total(kept@, o) == edits::cell_total(cells@, o),
{
    let n: usize = cells.len();
    let mut kept: Vec<(u16, i64)> = Vec::new();
    let mut i: usize = 0;
    proof {
        assert(cells@.take(0) =~= kept@);
    }
    while i < n
        invariant
            i <= n == cells@.len(),
            cells_sorted(cells@, width),
            cells_sorted(kept@, width),
            no_zeros(kept@),
            forall|k: int, x: int|
                0 <= k < kept@.len() && i <= x < n ==> (#[trigger] kept@[k]).0 < (
                #[trigger] cells@[x]).0,
            forall|o: int|
                #[trigger] edits::cell_total(kept@, o) == edits::cell_total(
                    cells@.take(i as int),
                    o,
                ),
        decreases n - i,
    {
        let ghost before = kept@;
        let ghost x = cells@[i as int];
        proof {
            assert(cells@.take(i + 1) =~= cells@.take(i as int) + seq![x]);
            assert forall|o: int| #[trigger] edits::cell_total(cells@.take(i + 1), o)
                == edits::cell_total(before, o) + if x.0 == o {
                x.1 as int
            } else {
                0
            } by {
                lemma_cell_total_concat(cells@.take(i as int), seq![x], o);
                lemma_cell_total_one(x, o);
                assert(edits::cell_total(before, o) == edits::cell_total(
                    cells@.take(i as int),
                    o,
                ));
            }
        }
        if cells[i].1 != 0 {
            kept.push(cells[i]);
            proof {
                assert(kept@ =~= before + seq![x]);
                assert forall|o: int| #[trigger] edits::cell_total(kept@, o) == edits::cell_total(
                    cells@.take(i + 1),
                    o,
                ) by {
                    lemma_cell_total_concat(before, seq![x], o);
                    lemma_cell_total_one(x, o);
                }
            }
        }
        i = i + 1;
    }
    proof {
        assert(cells@.take(n as int) =~= cells@);
    }
    kept
}

/// The rows without zeros and without those that are left empty.
fn prune(rows: &SegmentRowDeltas, Ghost(n_rows): Ghost<int>, Ghost(width): Ghost<int>) -> (kept:
    SegmentRowDeltas)
    requires
        rows_sorted(hint_delta::edits_view(rows@), n_rows, width),
    ensures
        rows_sorted(hint_delta::edits_view(kept@), n_rows, width),
        pruned(hint_delta::edits_view(kept@)),
        forall|r: int, o: int|
            #[trigger] edit_total(hint_delta::edits_view(kept@), r, o) == edit_total(
                hint_delta::edits_view(rows@),
                r,
                o,
            ),
{
    let n: usize = rows.len();
    let ghost view = hint_delta::edits_view(rows@);
    let mut kept: SegmentRowDeltas = Vec::new();
    let mut i: usize = 0;
    proof {
        assert(view.take(0) =~= hint_delta::edits_view(kept@));
    }
    while i < n
        invariant
            i <= n == rows@.len() == view.len(),
            view == hint_delta::edits_view(rows@),
            rows_sorted(view, n_rows, width),
            rows_sorted(hint_delta::edits_view(kept@), n_rows, width),
            pruned(hint_delta::edits_view(kept@)),
            forall|k: int, x: int|
                0 <= k < kept@.len() && i <= x < n ==> (#[trigger] kept@[k]).0 < (
                #[trigger] view[x]).0,
            forall|r: int, o: int|
                #[trigger] edit_total(hint_delta::edits_view(kept@), r, o) == edit_total(
                    view.take(i as int),
                    r,
                    o,
                ),
        decreases n - i,
    {
        let ghost before = hint_delta::edits_view(kept@);
        let ghost x = view[i as int];
        assert(cells_sorted(x.1, width));
        let cells: Vec<(u16, i64)> = without_zeros(&rows[i].1, Ghost(width));
        let ghost y: (u32, Cells) = (x.0, cells@);
        proof {
            assert(view.take(i + 1) =~= view.take(i as int) + seq![x]);
            assert forall|r: int, o: int| #[trigger] edit_total(view.take(i + 1), r, o)
                == edit_total(before, r, o) + if x.0 == r {
                edits::cell_total(cells@, o)
            } else {
                0
            } by {
                lemma_edit_total_concat(view.take(i as int), seq![x], r, o);
                lemma_edit_total_one(x, r, o);
                assert(edit_total(before, r, o) == edit_total(view.take(i as int), r, o));
                assert(edits::cell_total(cells@, o) == edits::cell_total(x.1, o));
            }
        }
        if cells.len() > 0 {
            kept.push((rows[i].0, cells));
            proof {
                let after = hint_delta::edits_view(kept@);
                assert(after =~= before + seq![y]);
                assert forall|r: int, o: int| #[trigger] edit_total(after, r, o) == edit_total(
                    view.take(i + 1),
                    r,
                    o,
                ) by {
                    lemma_edit_total_concat(before, seq![y], r, o);
                    lemma_edit_total_one(y, r, o);
                }
                assert forall|k: int| 0 <= k < after.len() implies (#[trigger] after[k]).0 < n_rows
                    && cells_sorted(after[k].1, width) && after[k].1.len() > 0 && no_zeros(
                    after[k].1,
                ) by {
                    if k < before.len() {
                        assert(after[k] == before[k]);
                    }
                }
                assert forall|p: int, q: int| 0 <= p < q < after.len() implies after[p].0
                    < after[q].0 by {
                    if q < before.len() {
                        assert(before[p].0 < before[q].0);
                    }
                }
            }
        } else {
            proof {
                assert forall|r: int, o: int| #[trigger] edit_total(before, r, o) == edit_total(
                    view.take(i + 1),
                    r,
                    o,
                ) by {
                    assert(cells@ =~= Seq::<(u16, i64)>::empty());
                    assert(edits::cell_total(Seq::<(u16, i64)>::empty(), o) == 0);
                    assert(edit_total(view.take(i + 1), r, o) == edit_total(before, r, o) + if x.0
                        == r {
                        edits::cell_total(cells@, o)
                    } else {
                        0
                    });
                }
            }
        }
        i = i + 1;
    }
    proof {
        assert(view.take(n as int) =~= view);
    }
    kept
}

// ---------------------------------------------------------------- folding
/// Whether a write fits the geometry: its slot is there, its values have their cells, and
/// what it changes lies at 16-bit offsets.
pub open spec fn mutation_ok(params: CuckooParams, m: SlotMutation) -> bool {
    &&& m.bucket < params.spec_arity() * params.spec_segment_size()
    &&& m.slot < params.bucket_size
    &&& m.old_value_cells@.len() == params.spec_value_size_in_cells()
    &&& m.new_value_cells@.len() == params.spec_value_size_in_cells()
    &&& forall|c: int|
        0 <= c < params.spec_cells_per_slot() && #[trigger] cell_delta(params, m, c) != 0 ==> m.slot
            * params.spec_cells_per_slot() + c <= u16::MAX
}

/// Whether the sums fit 64 bits after every write.
pub open spec fn sums_fit(params: CuckooParams, muts: Seq<SlotMutation>) -> bool {
    forall|n: int, j: int, r: int, o: int|
        0 <= n <= muts.len() ==> i64::MIN <= #[trigger] total_delta(
            params,
            muts.take(n),
            j,
            r,
            o,
        ) <= i64::MAX
}

/// A write adds at most `2^32 - 1` to a cell, and takes away at most as much.
pub proof fn lemma_mutation_bound(params: CuckooParams, m: SlotMutation, j: int, r: int, o: int)
    requires
        slots::packable(params),
    ensures
        -u32::MAX <= mutation_delta(params, m, j, r, o) <= u32::MAX,
{
    let c = o - m.slot * params.spec_cells_per_slot();
    slots::lemma_slot_cell_bound(params, m.new_fingerprint, m.new_value_cells@, c);
    slots::lemma_slot_cell_bound(params, m.old_fingerprint, m.old_value_cells@, c);
}

proof fn lemma_total_bound(
    params: CuckooParams,
    muts: Seq<SlotMutation>,
    j: int,
    r: int,
    o: int,
)
    requires
        slots::packable(params),
    ensures
        -(muts.len() * u32::MAX) <= total_delta(params, muts, j, r, o) <= muts.len() * u32::MAX,
    decreases muts.len(),
{
    if muts.len() > 0 {
        lemma_total_bound(params, muts.drop_last(), j, r, o);
        lemma_mutation_bound(params, muts.last(), j, r, o);
    }
}

/// Fewer than `2^31` writes have sums that fit.
pub proof fn lemma_short_logs_fit(params: CuckooParams, muts: Seq<SlotMutation>)
    requires
        slots::packable(params),
        muts.len() <= 0x7fff_ffff,
    ensures
        sums_fit(params, muts),
{
    assert forall|n: int, j: int, r: int, o: int| 0 <= n <= muts.len() implies i64::MIN
        <= #[trigger] total_delta(params, muts.take(n), j, r, o) <= i64::MAX by {
        lemma_total_bound(params, muts.take(n), j, r, o);
    }
}

/// Folds slot writes into sparse row deltas, by segment.
pub fn fold_mutations_into_row_deltas(muts: &[SlotMutation], params: &CuckooParams) -> (out: Vec<
    SegmentRowDeltas,
>)
    requires
        slots::packable(*params),
        params.spec_row_width() <= u32::MAX,
        muts@.len() <= 0x7fff_ffff || sums_fit(*params, muts@),
        forall|i: int| 0 <= i < muts@.len() ==> mutation_ok(*params, #[trigger] muts@[i]),
    ensures
        is_fold(hint_delta::deltas_view(out@), *params, muts@),
{
    let arity: usize = params.arity();
    let segment_size: u32 = params.segment_size();
    let cps: usize = params.cells_per_slot() as usize;
    let ghost n_rows = segment_size as int;
    let ghost width = params.spec_row_width();
    proof {
        if muts@.len() <= 0x7fff_ffff {
            lemma_short_logs_fit(*params, muts@);
        }
    }
    let mut acc: Vec<SegmentRowDeltas> = Vec::with_capacity(arity);
    let mut a: usize = 0;
    while a < arity
        invariant
            a <= arity,
            acc@.len() == a,
            forall|j: int| 0 <= j < a ==> (#[trigger] acc@[j])@.len() == 0,
        decreases arity - a,
    {
        acc.push(Vec::new());
        a = a + 1;
    }
    let mut old_buf: Vec<u32> = vec![0; cps];
    let mut new_buf: Vec<u32> = vec![0; cps];
    let count: usize = muts.len();
    let mut n: usize = 0;
    proof {
        assert(muts@.take(0) =~= Seq::empty());
        assert forall|j: int| 0 <= j < arity implies (#[trigger] hint_delta::edits_view(
            acc@[j]@,
        )).len() == 0 by {}
    }
    while n < count
        invariant
            n <= count == muts@.len(),
            arity == params.spec_arity() == acc@.len(),
            segment_size == params.spec_segment_size() == n_rows,
            cps == params.spec_cells_per_slot() == old_buf@.len() == new_buf@.len(),
            width == params.spec_row_width() <= u32::MAX,
            slots::packable(*params),
            sums_fit(*params, muts@),
            forall|i: int| 0 <= i < muts@.len() ==> mutation_ok(*params, #[trigger] muts@[i]),
            forall|j: int|
                0 <= j < arity ==> rows_sorted(
                    hint_delta::edits_view((#[trigger] acc@[j])@),
                    n_rows,
                    width,
                ),
            forall|j: int, r: int, o: int|
                0 <= j < arity ==> #[trigger] edit_total(
                    hint_delta::edits_view(acc@[j]@),
                    r,
                    o,
                ) == total_delta(*params, muts@.take(n as int), j, r, o),
        decreases count - n,
    {
        let m: &SlotMutation = &muts[n];
        let ghost before = acc@;
        proof {
            assert(mutation_ok(*params, muts@[n as int]));
            lemma_place(m.bucket as int, params.spec_arity() as int, n_rows);
            assert(m.slot * cps + cps <= width && 0 <= m.slot * cps) by (nonlinear_arith)
                requires
                    m.slot + 1 <= params.bucket_size,
                    width == params.bucket_size * cps,
                    0 <= m.slot,
                    0 <= cps,
            ;
        }
        let seg_idx: usize = (m.bucket / segment_size) as usize;
        let row: u32 = m.bucket % segment_size;
        let base: usize = (m.slot as usize) * cps;
        pack_slot_cells(
            params,
            m.old_fingerprint,
            m.old_value_cells.as_slice(),
            old_buf.as_mut_slice(),
        );
        pack_slot_cells(
            params,
            m.new_fingerprint,
            m.new_value_cells.as_slice(),
            new_buf.as_mut_slice(),
        );
        proof {
            let step = muts@.take(n + 1);
            assert(step.drop_last() =~= muts@.take(n as int));
            assert(step.last() == *m);
            assert forall|c: int| 0 <= c < cps implies (#[trigger] new_buf@[c]) - old_buf@[c]
                == cell_delta(*params, *m, c) by {
                slots::lemma_slot_cell_bound(*params, m.new_fingerprint, m.new_value_cells@, c);
                slots::lemma_slot_cell_bound(*params, m.old_fingerprint, m.old_value_cells@, c);
            }
            assert forall|c: int|
                0 <= c < cps && (#[trigger] new_buf@[c]) != old_buf@[c] implies {
                &&& base + c <= u16::MAX
                &&& i64::MIN <= edit_total(
                    hint_delta::edits_view(acc@[seg_idx as int]@),
                    row as int,
                    base + c,
                ) + new_buf@[c] - old_buf@[c] <= i64::MAX
            } by {
                assert(cell_delta(*params, *m, c) != 0);
                assert(mutation_delta(*params, *m, seg_idx as int, row as int, base + c)
                    == cell_delta(*params, *m, c));
                assert(total_delta(*params, step, seg_idx as int, row as int, base + c)
                    == total_delta(
                    *params,
                    muts@.take(n as int),
                    seg_idx as int,
                    row as int,
                    base + c,
                ) + cell_delta(*params, *m, c));
            }
        }
        let mut rows: SegmentRowDeltas = acc.remove(seg_idx);
        add_slot(
            &mut rows,
            row,
            base,
            old_buf.as_slice(),
            new_buf.as_slice(),
            Ghost(n_rows),
            Ghost(width),
        );
        acc.insert(seg_idx, rows);
        proof {
            let step = muts@.take(n + 1);
            assert(acc@ =~= before.update(seg_idx as int, rows));
            assert forall|j: int, r: int, o: int| 0 <= j < arity implies #[trigger] edit_total(
                hint_delta::edits_view(acc@[j]@),
                r,
                o,
            ) == total_delta(*params, step, j, r, o) by {
                assert(edit_total(hint_delta::edits_view(before[j]@), r, o) == total_delta(
                    *params,
                    muts@.take(n as int),
                    j,
                    r,
                    o,
                ));
                if j == seg_idx && r == row && base <= o < base + cps {
                    assert(new_buf@[o - base] - old_buf@[o - base] == cell_delta(
                        *params,
                        *m,
                        o - base,
                    ));
                }
            }
        }
        n = n + 1;
    }
    let mut out: Vec<SegmentRowDeltas> = Vec::with_capacity(arity);
    let mut j: usize = 0;
    proof {
        assert(muts@.take(count as int) =~= muts@);
    }
    while j < arity
        invariant
            j <= arity == acc@.len() == params.spec_arity(),
            out@.len() == j,
            n_rows == params.spec_segment_size(),
            width == params.spec_row_width(),
            forall|i: int|
                0 <= i < arity ==> rows_sorted(
                    hint_delta::edits_view((#[trigger] acc@[i])@),
                    n_rows,
                    width,
                ),
            forall|i: int, r: int, o: int|
                0 <= i < arity ==> #[trigger] edit_total(
                    hint_delta::edits_view(acc@[i]@),
                    r,
                    o,
                ) == total_delta(*params, muts@, i, r, o),
            forall|i: int|
                0 <= i < j ==> rows_sorted(
                    hint_delta::edits_view((#[trigger] out@[i])@),
                    n_rows,
                    width,
                ) && pruned(hint_delta::edits_view(out@[i]@)),
            forall|i: int, r: int, o: int|
                0 <= i < j ==> #[trigger] edit_total(hint_delta::edits_view(out@[i]@), r, o)
                    == total_delta(*params, muts@, i, r, o),
        decreases arity - j,
    {
        let ghost before = out@;
        assert(rows_sorted(hint_delta::edits_view(acc@[j as int]@), n_rows, width));
        let kept: SegmentRowDeltas = prune(&acc[j], Ghost(n_rows), Ghost(width));
        out.push(kept);
        proof {
            assert forall|i: int, r: int, o: int| 0 <= i < j + 1 implies #[trigger] edit_total(
                hint_delta::edits_view(out@[i]@),
                r,
                o,
            ) == total_delta(*params, muts@, i, r, o) by {
                if i < j {
                    assert(out@[i] == before[i]);
                } else {
                    assert(edit_total(hint_delta::edits_view(acc@[i]@), r, o) == total_delta(
                        *params,
                        muts@,
                        i,
                        r,
                        o,
                    ));
                }
            }
        }
        j = j + 1;
    }
    proof {
        let segs = hint_delta::deltas_view(out@);
        assert forall|i: int| 0 <= i < segs.len() implies {
            &&& rows_sorted(#[trigger] segs[i], n_rows, width)
            &&& pruned(segs[i])
            &&& forall|r: int, o: int|
                #[trigger] edit_total(segs[i], r, o) == total_delta(*params, muts@, i, r, o)
        } by {
            assert(segs[i] == hint_delta::edits_view(out@[i]@));
        }
    }
    out
}

/// The segment of a bucket and its row there.
proof fn lemma_place(g: int, k: int, seg: int)
    requires
        0 <= g < k * seg,
        0 <= seg,
    ensures
        0 < seg,
        0 <= g / seg < k,
        0 <= g % seg < seg,
{
    assert(seg > 0) by (nonlinear_arith)
        requires
            0 <= g < k * seg,
            0 <= seg,
    ;
    lemma_fundamental_div_mod(g, seg);
    lemma_mod_bound(g, seg);
    lemma_div_pos_is_pos(g, seg);
    assert(g / seg < k) by (nonlinear_arith)
        requires
            seg * (g / seg) <= g,
            g < k * seg,
            0 < seg,
    ;
}

} // verus!
