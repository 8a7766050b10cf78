//! What folded slot writes mean for the slots and for the database.
use vstd::arithmetic::div_mod::*;
use vstd::prelude::*;

use crate::arith;
use crate::backend::edits;
use crate::geometry::CuckooParams;
use crate::server::hint_patch;
use crate::server::slots;
use crate::server::slots::SlotMutation;
use crate::wire::layout::DeltaWireLayout;
use crate::wire::sparse;
use crate::wire::sparse::{Cells, Edits};

verus! {

// ---------------------------------------------------------------- the sums determine the edits
proof fn lemma_drop_cell(cells: Cells, width: int, o: int)
    requires
        hint_patch::cells_sorted(cells, width),
        hint_patch::no_zeros(cells),
        cells.len() > 0,
    ensures
        hint_patch::cells_sorted(cells.drop_last(), width),
        hint_patch::no_zeros(cells.drop_last()),
        edits::cell_total(cells.drop_last(), o) == edits::cell_total(cells, o) - if cells.last().0
            == o {
            cells.last().1 as int
        } else {
            0
        },
{
    let init = cells.drop_last();
    assert forall|i: int| 0 <= i < init.len() implies (#[trigger] init[i]).0 < width && init[i].1
        != 0 by {
        assert(init[i] == cells[i]);
    }
    assert forall|i: int, k: int| 0 <= i < k < init.len() implies init[i].0 < init[k].0 by {
        assert(cells[i].0 < cells[k].0);
    }
}

/// A cell with a sum is there.
proof fn lemma_cell_present(cells: Cells, o: int) -> (i: int)
    requires
        edits::cell_total(cells, o) != 0,
    ensures
        0 <= i < cells.len(),
        cells[i].0 == o,
{
    if forall|i: int| 0 <= i < cells.len() ==> (#[trigger] cells[i]).0 != o {
        hint_patch::lemma_cell_total_absent(cells, o);
    }
    choose|i: int| 0 <= i < cells.len() && (#[trigger] cells[i]).0 == o
}

/// Sorted cells without zeros are determined by their sums.
proof fn lemma_cells_determined(a: Cells, b: Cells, width: int)
    requires
        hint_patch::cells_sorted(a, width),
        hint_patch::cells_sorted(b, width),
        hint_patch::no_zeros(a),
        hint_patch::no_zeros(b),
        forall|o: int| #[trigger] edits::cell_total(a, o) == edits::cell_total(b, o),
    ensures
        a == b,
    decreases a.len() + b.len(),
{
    if a.len() == 0 && b.len() == 0 {
        assert(a =~= b);
    } else {
        if a.len() > 0 {
            let x = a.last();
            hint_patch::lemma_cell_total_at(a, width, a.len() - 1);
            assert(a[a.len() - 1].1 != 0);
            assert(edits::cell_total(a, x.0 as int) == edits::cell_total(b, x.0 as int));
            let k = lemma_cell_present(b, x.0 as int);
            if k < b.len() - 1 {
                assert(b[k].0 < b[b.len() - 1].0);
            }
        }
        if b.len() > 0 {
            let y = b.last();
            hint_patch::lemma_cell_total_at(b, width, b.len() - 1);
            assert(b[b.len() - 1].1 != 0);
            assert(edits::cell_total(a, y.0 as int) == edits::cell_total(b, y.0 as int));
            let k = lemma_cell_present(a, y.0 as int);
            if k < a.len() - 1 {
                assert(a[k].0 < a[a.len() - 1].0);
            }
        }
        assert(a.last() == b.last());
        assert forall|o: int| #[trigger] edits::cell_total(a.drop_last(), o) == edits::cell_total(
            b.drop_last(),
            o,
        ) by {
            lemma_drop_cell(a, width, o);
            lemma_drop_cell(b, width, o);
            assert(edits::cell_total(a, o) == edits::cell_total(b, o));
        }
        lemma_drop_cell(a, width, 0);
        lemma_drop_cell(b, width, 0);
        lemma_cells_determined(a.drop_last(), b.drop_last(), width);
        assert(a =~= a.drop_last().push(a.last()));
        assert(b =~= b.drop_last().push(b.last()));
    }
}

proof fn lemma_drop_row(rows: Edits, n_rows: int, width: int, r: int, o: int)
    requires
        hint_patch::rows_sorted(rows, n_rows, width),
        hint_patch::pruned(rows),
        rows.len() > 0,
    ensures
        hint_patch::rows_sorted(rows.drop_last(), n_rows, width),
        hint_patch::pruned(rows.drop_last()),
        hint_patch::edit_total(rows.drop_last(), r, o) == hint_patch::edit_total(rows, r, o)
            - if rows.last().0 == r {
            edits::cell_total(rows.last().1, o)
        } else {
            0
        },
{
    let init = rows.drop_last();
    assert forall|i: int| 0 <= i < init.len() implies (#[trigger] init[i]).0 < n_rows
        && hint_patch::cells_sorted(init[i].1, width) && init[i].1.len() > 0
        && hint_patch::no_zeros(init[i].1) by {
        assert(init[i] == rows[i]);
    }
    assert forall|i: int, k: int| 0 <= i < k < init.len() implies init[i].0 < init[k].0 by {
        assert(rows[i].0 < rows[k].0);
    }
}

/// A row with a sum is there.
proof fn lemma_row_present(rows: Edits, r: int, o: int) -> (i: int)
    requires
        hint_patch::edit_total(rows, r, o) != 0,
    ensures
        0 <= i < rows.len(),
        rows[i].0 == r,
{
    if forall|i: int| 0 <= i < rows.len() ==> (#[trigger] rows[i]).0 != r {
        hint_patch::lemma_edit_total_absent(rows, r, o);
    }
    choose|i: int| 0 <= i < rows.len() && (#[trigger] rows[i]).0 == r
}

/// The last row of one list has its counterpart in the other.
proof fn lemma_last_row(a: Edits, b: Edits, n_rows: int, width: int)
    requires
        hint_patch::rows_sorted(a, n_rows, width),
        hint_patch::rows_sorted(b, n_rows, width),
        hint_patch::pruned(a),
        forall|r: int, o: int|
            #[trigger] hint_patch::edit_total(a, r, o) == hint_patch::edit_total(b, r, o),
        a.len() > 0,
    ensures
        b.len() > 0,
        a.last().0 <= b.last().0,
{
    let last = a.len() - 1;
    let r = a[last].0 as int;
    assert(a[last].1.len() > 0);
    let x = a[last].1[0];
    hint_patch::lemma_edit_total_at(a, n_rows, width, last, x.0 as int);
    hint_patch::lemma_cell_total_at(a[last].1, width, 0);
    assert(x.1 != 0);
    assert(hint_patch::edit_total(a, r, x.0 as int) == hint_patch::edit_total(b, r, x.0 as int));
    let k = lemma_row_present(b, r, x.0 as int);
    if k < b.len() - 1 {
        assert(b[k].0 < b[b.len() - 1].0);
    }
}

/// Sorted and pruned rows are determined by their sums.
pub proof fn law_edits_determined(a: Edits, b: Edits, n_rows: int, width: int)
    requires
        hint_patch::rows_sorted(a, n_rows, width),
        hint_patch::rows_sorted(b, n_rows, width),
        hint_patch::pruned(a),
        hint_patch::pruned(b),
        forall|r: int, o: int|
            #[trigger] hint_patch::edit_total(a, r, o) == hint_patch::edit_total(b, r, o),
    ensures
        a == b,
    decreases a.len() + b.len(),
{
    if a.len() == 0 && b.len() == 0 {
        assert(a =~= b);
    } else {
        if a.len() > 0 {
            lemma_last_row(a, b, n_rows, width);
        }
        if b.len() > 0 {
            assert forall|r: int, o: int| #[trigger] hint_patch::edit_total(b, r, o)
                == hint_patch::edit_total(a, r, o) by {
                assert(hint_patch::edit_total(a, r, o) == hint_patch::edit_total(b, r, o));
            }
            lemma_last_row(b, a, n_rows, width);
        }
        let x = a[a.len() - 1];
        let y = b[b.len() - 1];
        let r = x.0 as int;
        assert forall|o: int| #[trigger] edits::cell_total(x.1, o) == edits::cell_total(y.1, o) by {
            hint_patch::lemma_edit_total_at(a, n_rows, width, a.len() - 1, o);
            hint_patch::lemma_edit_total_at(b, n_rows, width, b.len() - 1, o);
            assert(hint_patch::edit_total(a, r, o) == hint_patch::edit_total(b, r, o));
        }
        lemma_cells_determined(x.1, y.1, width);
        assert forall|q: int, o: int| #[trigger] hint_patch::edit_total(a.drop_last(), q, o)
            == hint_patch::edit_total(b.drop_last(), q, o) by {
            lemma_drop_row(a, n_rows, width, q, o);
            lemma_drop_row(b, n_rows, width, q, o);
            assert(hint_patch::edit_total(a, q, o) == hint_patch::edit_total(b, q, o));
        }
        lemma_drop_row(a, n_rows, width, 0, 0);
        lemma_drop_row(b, n_rows, width, 0, 0);
        law_edits_determined(a.drop_last(), b.drop_last(), n_rows, width);
        assert(a =~= a.drop_last().push(a.last()));
        assert(b =~= b.drop_last().push(b.last()));
    }
}

/// Logs with the same sums fold to the same edits.
pub proof fn law_fold_determined(
    params: CuckooParams,
    log1: Seq<SlotMutation>,
    log2: Seq<SlotMutation>,
    segs1: Seq<Edits>,
    segs2: Seq<Edits>,
)
    requires
        hint_patch::is_fold(segs1, params, log1),
        hint_patch::is_fold(segs2, params, log2),
        forall|j: int, r: int, o: int|
            #[trigger] hint_patch::total_delta(params, log1, j, r, o) == hint_patch::total_delta(
                params,
                log2,
                j,
                r,
                o,
            ),
    ensures
        segs1 == segs2,
{
    assert forall|j: int| 0 <= j < segs1.len() implies segs1[j] == segs2[j] by {
        let a = segs1[j];
        let b = segs2[j];
        assert forall|r: int, o: int| #[trigger] hint_patch::edit_total(a, r, o)
            == hint_patch::edit_total(b, r, o) by {
            assert(hint_patch::total_delta(params, log1, j, r, o) == hint_patch::total_delta(
                params,
                log2,
                j,
                r,
                o,
            ));
        }
        law_edits_determined(a, b, params.spec_segment_size() as int, params.spec_row_width());
    }
    assert(segs1 =~= segs2);
}

// ---------------------------------------------------------------- logs
/// The contents of all slots: by bucket and slot, the fingerprint and the value's cells.
pub type SlotState = spec_fn(u32, u32) -> (u64, Seq<u32>);

/// The contents after the writes.
pub open spec fn state_after(start: SlotState, muts: Seq<SlotMutation>) -> SlotState
    decreases muts.len(),
{
    if muts.len() == 0 {
        start
    } else {
        let before = state_after(start, muts.drop_last());
        let m = muts.last();
        |bucket: u32, slot: u32|
            if bucket == m.bucket && slot == m.slot {
                (m.new_fingerprint, m.new_value_cells@)
            } else {
                before(bucket, slot)
            }
    }
}

/// Every write found what the writes before it left.
pub open spec fn consistent(start: SlotState, muts: Seq<SlotMutation>) -> bool
    decreases muts.len(),
{
    muts.len() == 0 || {
        let m = muts.last();
        &&& consistent(start, muts.drop_last())
        &&& state_after(start, muts.drop_last())(m.bucket, m.slot) == (
            m.old_fingerprint,
            m.old_value_cells@,
        )
    }
}

/// Cell `c` of slot `slot` of bucket `bucket`.
pub open spec fn state_cell(
    params: CuckooParams,
    state: SlotState,
    bucket: u32,
    slot: u32,
    c: int,
) -> nat {
    slots::slot_cell(params, state(bucket, slot).0, state(bucket, slot).1, c)
}

/// The bucket, slot and cell that a row's offset stands for.
proof fn lemma_offset(
    params: CuckooParams,
    m: SlotMutation,
    bucket: u32,
    slot: u32,
    c: int,
)
    requires
        params.spec_segment_size() > 0,
        0 <= c < params.spec_cells_per_slot(),
    ensures
        ({
            let seg = params.spec_segment_size() as int;
            let cps = params.spec_cells_per_slot();
            hint_patch::mutation_delta(
                params,
                m,
                bucket as int / seg,
                bucket as int % seg,
                slot * cps + c,
            ) == if m.bucket == bucket && m.slot == slot {
                hint_patch::cell_delta(params, m, c)
            } else {
                0
            }
        }),
{
    let seg = params.spec_segment_size() as int;
    let cps = params.spec_cells_per_slot();
    lemma_fundamental_div_mod(bucket as int, seg);
    lemma_fundamental_div_mod(m.bucket as int, seg);
    if m.slot < slot {
        assert(m.slot * cps + cps <= slot * cps) by (nonlinear_arith)
            requires
                m.slot + 1 <= slot,
                0 <= cps,
        ;
    } else if m.slot > slot {
        assert(slot * cps + cps <= m.slot * cps) by (nonlinear_arith)
            requires
                slot + 1 <= m.slot,
                0 <= cps,
        ;
    }
}

/// The writes of a consistent log telescope: their sum is the difference of the last and the
/// first contents of the slot, however often it was written.
pub proof fn law_log_telescopes(
    params: CuckooParams,
    start: SlotState,
    muts: Seq<SlotMutation>,
    bucket: u32,
    slot: u32,
    c: int,
)
    requires
        params.spec_segment_size() > 0,
        0 <= c < params.spec_cells_per_slot(),
        consistent(start, muts),
    ensures
        hint_patch::total_delta(
            params,
            muts,
            bucket as int / params.spec_segment_size() as int,
            bucket as int % params.spec_segment_size() as int,
            slot * params.spec_cells_per_slot() + c,
        ) == state_cell(params, state_after(start, muts), bucket, slot, c) - state_cell(
            params,
            start,
            bucket,
            slot,
            c,
        ),
    decreases muts.len(),
{
    if muts.len() > 0 {
        law_log_telescopes(params, start, muts.drop_last(), bucket, slot, c);
        lemma_offset(params, muts.last(), bucket, slot, c);
    }
}

/// Undoing a write takes away what it added.
pub proof fn law_reversed_write_negates(
    params: CuckooParams,
    m: SlotMutation,
    back: SlotMutation,
    j: int,
    r: int,
    o: int,
)
    requires
        back.bucket == m.bucket,
        back.slot == m.slot,
        back.old_fingerprint == m.new_fingerprint,
        back.new_fingerprint == m.old_fingerprint,
        back.old_value_cells@ == m.new_value_cells@,
        back.new_value_cells@ == m.old_value_cells@,
    ensures
        hint_patch::mutation_delta(params, back, j, r, o) == -hint_patch::mutation_delta(
            params,
            m,
            j,
            r,
            o,
        ),
{
}

/// Two logs that start from the same contents and leave the same contents fold to the same
/// edits.
pub proof fn law_same_outcome_same_edits(
    params: CuckooParams,
    start: SlotState,
    log1: Seq<SlotMutation>,
    log2: Seq<SlotMutation>,
    segs1: Seq<Edits>,
    segs2: Seq<Edits>,
)
    requires
        params.spec_segment_size() > 0,
        params.spec_cells_per_slot() > 0,
        slots::packable(params),
        forall|i: int|
            0 <= i < log1.len() ==> hint_patch::mutation_ok(params, #[trigger] log1[i]),
        forall|i: int|
            0 <= i < log2.len() ==> hint_patch::mutation_ok(params, #[trigger] log2[i]),
        consistent(start, log1),
        consistent(start, log2),
        forall|bucket: u32, slot: u32|
            #[trigger] state_after(start, log1)(bucket, slot) == state_after(start, log2)(
                bucket,
                slot,
            ),
        hint_patch::is_fold(segs1, params, log1),
        hint_patch::is_fold(segs2, params, log2),
    ensures
        segs1 == segs2,
{
    assert forall|j: int, r: int, o: int|
        #[trigger] hint_patch::total_delta(params, log1, j, r, o) == hint_patch::total_delta(
            params,
            log2,
            j,
            r,
            o,
        ) by {
        if in_slots(params, j, r, o) {
            let (bucket, slot, c) = lemma_slot_of_offset(params, j, r, o);
            law_log_telescopes(params, start, log1, bucket, slot, c);
            law_log_telescopes(params, start, log2, bucket, slot, c);
            assert(state_after(start, log1)(bucket, slot) == state_after(start, log2)(
                bucket,
                slot,
            ));
        } else {
            lemma_outside(params, log1, j, r, o);
            lemma_outside(params, log2, j, r, o);
        }
    }
    law_fold_determined(params, log1, log2, segs1, segs2);
}

/// The place lies in one of the slots.
pub open spec fn in_slots(params: CuckooParams, j: int, r: int, o: int) -> bool {
    &&& 0 <= j < params.spec_arity()
    &&& 0 <= r < params.spec_segment_size()
    &&& 0 <= o < params.spec_row_width()
}

/// The slot and its cell at a place.
proof fn lemma_slot_of_offset(params: CuckooParams, j: int, r: int, o: int) -> (s: (u32, u32, int))
    requires
        in_slots(params, j, r, o),
        params.spec_segment_size() > 0,
        params.spec_cells_per_slot() > 0,
    ensures
        s.0 as int / params.spec_segment_size() as int == j,
        s.0 as int % params.spec_segment_size() as int == r,
        o == s.1 * params.spec_cells_per_slot() + s.2,
        0 <= s.2 < params.spec_cells_per_slot(),
        s.1 < params.bucket_size,
{
    let seg = params.spec_segment_size() as int;
    let arity = params.spec_arity() as int;
    let cps = params.spec_cells_per_slot();
    let b = params.bucket_size as int;
    let g = j * seg + r;
    arith::lemma_cell(j, r, arity, seg);
    lemma_fundamental_div_mod(params.num_buckets as int, arity);
    assert(seg * arity == arity * seg) by (nonlinear_arith);
    lemma_fundamental_div_mod(o, cps);
    lemma_mod_bound(o, cps);
    lemma_div_pos_is_pos(o, cps);
    assert(cps * (o / cps) == (o / cps) * cps) by (nonlinear_arith);
    assert(o / cps < b) by (nonlinear_arith)
        requires
            (o / cps) * cps <= o,
            o < b * cps,
            cps > 0,
    ;
    (g as u32, (o / cps) as u32, o % cps)
}

/// Good writes add nothing outside the slots.
proof fn lemma_outside(params: CuckooParams, muts: Seq<SlotMutation>, j: int, r: int, o: int)
    requires
        params.spec_segment_size() > 0,
        params.spec_cells_per_slot() > 0,
        !in_slots(params, j, r, o),
        forall|i: int|
            0 <= i < muts.len() ==> hint_patch::mutation_ok(params, #[trigger] muts[i]),
    ensures
        hint_patch::total_delta(params, muts, j, r, o) == 0,
    decreases muts.len(),
{
    if muts.len() > 0 {
        let init = muts.drop_last();
        let m = muts.last();
        assert(muts[muts.len() - 1] == m);
        assert forall|i: int| 0 <= i < init.len() implies hint_patch::mutation_ok(
            params,
            #[trigger] init[i],
        ) by {
            assert(init[i] == muts[i]);
        }
        lemma_outside(params, init, j, r, o);
        let seg = params.spec_segment_size() as int;
        let arity = params.spec_arity() as int;
        let cps = params.spec_cells_per_slot();
        let b = params.bucket_size as int;
        let g = m.bucket as int;
        lemma_fundamental_div_mod(g, seg);
        lemma_mod_bound(g, seg);
        lemma_div_pos_is_pos(g, seg);
        assert(g / seg < arity) by (nonlinear_arith)
            requires
                seg * (g / seg) <= g,
                g < arity * seg,
                0 < seg,
        ;
        assert(0 <= m.slot * cps && m.slot * cps + cps <= b * cps) by (nonlinear_arith)
            requires
                0 <= m.slot,
                m.slot + 1 <= b,
                cps > 0,
        ;
    }
}

/// The edits of a log that leaves all slots as it found them are empty.
pub proof fn law_restored_slots_emit_nothing(
    params: CuckooParams,
    start: SlotState,
    muts: Seq<SlotMutation>,
    segs: Seq<Edits>,
)
    requires
        params.spec_segment_size() > 0,
        params.spec_cells_per_slot() > 0,
        slots::packable(params),
        forall|i: int|
            0 <= i < muts.len() ==> hint_patch::mutation_ok(params, #[trigger] muts[i]),
        consistent(start, muts),
        forall|bucket: u32, slot: u32|
            #[trigger] state_after(start, muts)(bucket, slot) == start(bucket, slot),
        hint_patch::is_fold(segs, params, muts),
    ensures
        forall|j: int| 0 <= j < segs.len() ==> (#[trigger] segs[j]).len() == 0,
{
    let none = Seq::<SlotMutation>::empty();
    let empty = Seq::new(segs.len(), |j: int| Seq::<(u32, Cells)>::empty());
    assert(hint_patch::is_fold(empty, params, none)) by {
        assert forall|j: int| 0 <= j < empty.len() implies {
            &&& hint_patch::rows_sorted(
                #[trigger] empty[j],
                params.spec_segment_size() as int,
                params.spec_row_width(),
            )
            &&& hint_patch::pruned(empty[j])
            &&& forall|r: int, o: int|
                #[trigger] hint_patch::edit_total(empty[j], r, o) == hint_patch::total_delta(
                    params,
                    none,
                    j,
                    r,
                    o,
                )
        } by {}
    }
    law_same_outcome_same_edits(params, start, muts, none, segs, empty);
    assert forall|j: int| 0 <= j < segs.len() implies (#[trigger] segs[j]).len() == 0 by {
        assert(segs[j] == empty[j]);
    }
}

/// The edits of a consistent log are those that the wire format takes: every delta is smaller
/// than the plaintext modulus.
pub proof fn law_fold_is_canonical(
    params: CuckooParams,
    start: SlotState,
    muts: Seq<SlotMutation>,
    segs: Seq<Edits>,
)
    requires
        params.valid(),
        params.spec_segment_size() > 0,
        params.spec_cells_per_slot() > 0,
        slots::packable(params),
        consistent(start, muts),
        hint_patch::is_fold(segs, params, muts),
    ensures
        sparse::segments_canonical(DeltaWireLayout::of(params), segs),
{
    let l = DeltaWireLayout::of(params);
    let n_rows = params.spec_segment_size() as int;
    let width = params.spec_row_width();
    assert forall|j: int| 0 <= j < segs.len() implies sparse::edits_canonical(
        l,
        #[trigger] segs[j],
    ) by {
        let rows = segs[j];
        assert forall|i: int| 0 <= i < rows.len() implies {
            &&& (#[trigger] rows[i]).0 < l.segment_size
            &&& rows[i].1.len() > 0
            &&& sparse::cells_canonical(l, rows[i].1)
        } by {
            let cells = rows[i].1;
            assert forall|x: int| 0 <= x < cells.len() implies {
                &&& (#[trigger] cells[x]).0 < l.row_width
                &&& cells[x].1 != 0
                &&& -crate::wire::message::modulus(l) < cells[x].1
                &&& cells[x].1 < crate::wire::message::modulus(l)
            } by {
                let o = cells[x].0 as int;
                let r = rows[i].0 as int;
                hint_patch::lemma_cell_total_at(cells, width, x);
                hint_patch::lemma_edit_total_at(rows, n_rows, width, i, o);
                assert(hint_patch::edit_total(rows, r, o) == hint_patch::total_delta(
                    params,
                    muts,
                    j,
                    r,
                    o,
                ));
                let (bucket, slot, c) = lemma_slot_of_offset(params, j, r, o);
                law_log_telescopes(params, start, muts, bucket, slot, c);
                let end = state_after(start, muts);
                slots::lemma_slot_cell_bound(
                    params,
                    end(bucket, slot).0,
                    end(bucket, slot).1,
                    c,
                );
                slots::lemma_slot_cell_bound(
                    params,
                    start(bucket, slot).0,
                    start(bucket, slot).1,
                    c,
                );
            }
        }
    }
}

// ---------------------------------------------------------------- the database
/// The database of a segment holds the slots' cells.
pub open spec fn holds_state(
    d: Seq<u32>,
    params: CuckooParams,
    state: SlotState,
    j: int,
) -> bool {
    let seg = params.spec_segment_size() as int;
    let cps = params.spec_cells_per_slot();
    let width = params.spec_row_width();
    &&& d.len() == seg * width
    &&& forall|r: int, slot: u32, c: int|
        0 <= r < seg && slot < params.bucket_size && 0 <= c < cps ==> arith::cell(
            d,
            width,
            r,
            slot * cps + c,
        ) == #[trigger] state_cell(params, state, (j * seg + r) as u32, slot, c)
}

/// Patching adds a cell's sum to it.
pub proof fn lemma_patched_cell(d: Seq<u32>, n_rows: int, width: int, rows: Edits, r: int, o: int)
    requires
        d.len() == n_rows * width,
        0 <= r < n_rows,
        0 <= o < width,
    ensures
        edits::patched_db(d, width, rows).len() == d.len(),
        arith::cell(edits::patched_db(d, width, rows), width, r, o) == arith::wrap(
            arith::cell(d, width, r, o) + hint_patch::edit_total(rows, r, o),
        ),
    decreases rows.len(),
{
    if rows.len() == 0 {
        arith::lemma_wrap_id(arith::cell(d, width, r, o));
    } else {
        let init = rows.drop_last();
        lemma_patched_cell(d, n_rows, width, init, r, o);
        edits::lemma_patched_db_cell(d, n_rows, width, rows, r, o);
        arith::lemma_wrap_add(
            arith::cell(d, width, r, o) + hint_patch::edit_total(init, r, o),
            edits::cell_total(rows.last().1, o),
        );
    }
}

/// Patching a segment's database with the folded edits of a consistent log turns the cells of
/// the slots before into those of the slots after.
pub proof fn law_fold_updates_database(
    params: CuckooParams,
    start: SlotState,
    muts: Seq<SlotMutation>,
    segs: Seq<Edits>,
    d: Seq<u32>,
    j: int,
)
    requires
        params.spec_segment_size() > 0,
        params.spec_cells_per_slot() > 0,
        slots::packable(params),
        consistent(start, muts),
        hint_patch::is_fold(segs, params, muts),
        0 <= j < segs.len(),
        holds_state(d, params, start, j),
    ensures
        holds_state(
            edits::patched_db(d, params.spec_row_width(), segs[j]),
            params,
            state_after(start, muts),
            j,
        ),
{
    let seg = params.spec_segment_size() as int;
    let arity = params.spec_arity() as int;
    let cps = params.spec_cells_per_slot();
    let width = params.spec_row_width();
    let b = params.bucket_size as int;
    let rows = segs[j];
    let out = edits::patched_db(d, width, rows);
    let end = state_after(start, muts);
    edits::lemma_patched_db_len(d, width, rows);
    assert forall|r: int, slot: u32, c: int|
        0 <= r < seg && slot < params.bucket_size && 0 <= c < cps implies arith::cell(
        out,
        width,
        r,
        slot * cps + c,
    ) == #[trigger] state_cell(params, end, (j * seg + r) as u32, slot, c) by {
        let o = slot * cps + c;
        let bucket = (j * seg + r) as u32;
        arith::lemma_cell(j, r, arity, seg);
        lemma_fundamental_div_mod(params.num_buckets as int, arity);
        assert(seg * arity == arity * seg) by (nonlinear_arith);
        arith::lemma_cell(slot as int, c, b, cps);
        lemma_patched_cell(d, seg, width, rows, r, o);
        law_log_telescopes(params, start, muts, bucket, slot, c);
        assert(hint_patch::edit_total(rows, r, o) == hint_patch::total_delta(
            params,
            muts,
            j,
            r,
            o,
        ));
        assert(arith::cell(d, width, r, o) == state_cell(params, start, bucket, slot, c));
        slots::lemma_slot_cell_bound(params, end(bucket, slot).0, end(bucket, slot).1, c);
        arith::lemma_wrap_id(state_cell(params, end, bucket, slot, c) as u32);
    }
}

/// Every write adds to a cell what it changes of it, whichever writes came before: nothing
/// outside its own slot, and inside it the new cell less the old one.
pub proof fn law_writes_add_up(
    params: CuckooParams,
    muts: Seq<SlotMutation>,
    m: SlotMutation,
    j: int,
    r: int,
    o: int,
)
    requires
        params.spec_segment_size() > 0,
    ensures
        hint_patch::total_delta(params, Seq::empty(), j, r, o) == 0,
        ({
            let seg = params.spec_segment_size() as int;
            let cps = params.spec_cells_per_slot();
            let c = o - m.slot * cps;
            hint_patch::total_delta(params, muts.push(m), j, r, o) == hint_patch::total_delta(
                params,
                muts,
                j,
                r,
                o,
            ) + if m.bucket == j * seg + r && 0 <= r < seg && 0 <= c < cps {
                slots::slot_cell(params, m.new_fingerprint, m.new_value_cells@, c)
                    - slots::slot_cell(params, m.old_fingerprint, m.old_value_cells@, c)
            } else {
                0
            }
        }),
{
    let seg = params.spec_segment_size() as int;
    let g = m.bucket as int;
    assert(muts.push(m).drop_last() =~= muts);
    lemma_fundamental_div_mod(g, seg);
    lemma_mod_bound(g, seg);
    assert(seg * (g / seg) == (g / seg) * seg) by (nonlinear_arith);
    if g == j * seg + r && 0 <= r < seg {
        lemma_fundamental_div_mod_converse(g, seg, j, r);
    }
}

} // verus!
