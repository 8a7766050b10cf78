//! What edits do to a database, edit by edit.
use vstd::arithmetic::div_mod::*;
use vstd::prelude::*;

use crate::arith;
use crate::backend::edits;
use crate::backend::frodo::backend::{FrodoClientState, FrodoPirBackend, FrodoQuery};
use crate::backend::frodo::patching;
use crate::backend::patch;
use crate::backend::{IncrementalPirBackend, IndexPirBackend, PrecomputingPirBackend};
use crate::wire::sparse::{Cells, Edits};

verus! {

/// The deltas of one column add up, cell by cell: one more cell counts in its own column and in
/// no other, and without cells there is nothing.
pub proof fn law_deltas_add_up(cells: Cells, cell: (u16, i64), column: spec_fn(u16) -> int, c: int)
    ensures
        patch::column_total(Seq::empty(), column, c) == 0,
        patch::column_total(cells.push(cell), column, c) == patch::column_total(cells, column, c)
            + if column(cell.0) == c {
            cell.1 as int
        } else {
            0
        },
        edits::cell_total(cells.push(cell), c) == edits::cell_total(cells, c) + if cell.0 == c {
            cell.1 as int
        } else {
            0
        },
{
    assert(cells.push(cell).drop_last() =~= cells);
}

/// An edit of one cell adds its delta to that cell, modulo `2^32`, and changes no other.
pub proof fn law_edit_adds_delta(d: Seq<u32>, width: int, row: u32, off: u16, delta: i64, x: int)
    requires
        off < width,
        0 <= x < d.len(),
    ensures
        ({
            let after = edits::patched_db(d, width, seq![(row, seq![(off, delta)])]);
            &&& after.len() == d.len()
            &&& after[x] == if x == row * width + off {
                ((d[x] + delta) % 0x1_0000_0000) as u32
            } else {
                d[x]
            }
        }),
{
    let cells = seq![(off, delta)];
    let rows = seq![(row, cells)];
    assert(rows.drop_last() =~= Seq::empty());
    assert(edits::patched_db(d, width, Seq::empty()) == d);
    law_deltas_add_up(Seq::empty(), (off, delta), |o: u16| o as int, x % width);
    assert(Seq::<(u16, i64)>::empty().push((off, delta)) =~= cells);
    lemma_fundamental_div_mod(x, width);
    lemma_mod_bound(x, width);
    if x == row * width + off {
        lemma_fundamental_div_mod_converse(x, width, row as int, off as int);
    } else if x / width == row && x % width == off {
        assert(width * (x / width) == row * width) by (nonlinear_arith)
            requires
                x / width == row,
        ;
    }
    arith::lemma_wrap_id(d[x]);
}

/// Edits take effect one after another: a list of edits does what its first part does, and
/// then what the rest does.
pub proof fn law_edits_in_turn(d: Seq<u32>, width: int, first: Edits, second: Edits)
    ensures
        edits::patched_db(d, width, Seq::empty()) == d,
        edits::patched_db(d, width, first + second) == edits::patched_db(
            edits::patched_db(d, width, first),
            width,
            second,
        ),
    decreases second.len(),
{
    if second.len() == 0 {
        assert(first + second =~= first);
    } else {
        assert((first + second).drop_last() =~= first + second.drop_last());
        law_edits_in_turn(d, width, first, second.drop_last());
    }
}

/// The cells of one edited row take effect one after another as well.
pub proof fn law_cells_in_turn(d: Seq<u32>, width: int, row: u32, cells: Cells, cell: (u16, i64))
    ensures
        edits::patched_db(d, width, seq![(row, cells.push(cell))]) == edits::patched_db(
            d,
            width,
            seq![(row, cells), (row, seq![cell])],
        ),
        edits::patched_db(d, width, seq![(row, Seq::<(u16, i64)>::empty())]) == d,
{
    let one = seq![(row, cells.push(cell))];
    let two = seq![(row, cells), (row, seq![cell])];
    let none = seq![(row, Seq::<(u16, i64)>::empty())];
    let first = seq![(row, cells)];
    assert(one.drop_last() =~= Seq::<(u32, Cells)>::empty());
    assert(two.drop_last() =~= first);
    assert(first.drop_last() =~= Seq::<(u32, Cells)>::empty());
    assert(none.drop_last() =~= Seq::<(u32, Cells)>::empty());
    assert(edits::patched_db(d, width, Seq::empty()) == d);
    let mid = edits::patched_db(d, width, first);
    let x1 = edits::patched_db(d, width, one);
    let x2 = edits::patched_db(d, width, two);
    assert forall|x: int| 0 <= x < d.len() implies x1[x] == x2[x] by {
        let c = x % width;
        law_deltas_add_up(cells, cell, |o: u16| o as int, c);
        law_deltas_add_up(Seq::empty(), cell, |o: u16| o as int, c);
        assert(Seq::<(u16, i64)>::empty().push(cell) =~= seq![cell]);
        if x / width == row {
            let t = edits::cell_total(cells, c);
            let u = edits::cell_total(seq![cell], c);
            assert(mid[x] == arith::wrap(d[x] + t));
            arith::lemma_wrap_add(d[x] + t, u);
        }
    }
    assert(x1 =~= x2);
    let y = edits::patched_db(d, width, none);
    assert forall|x: int| 0 <= x < d.len() implies y[x] == d[x] by {
        law_deltas_add_up(Seq::empty(), cell, |o: u16| o as int, x % width);
        arith::lemma_wrap_id(d[x]);
    }
    assert(y =~= d);
}

/// Edits that are taken back, each delta negated, leave the database as it was.
pub proof fn law_edit_is_undone(d: Seq<u32>, width: int, row: u32, off: u16, delta: i64)
    requires
        off < width,
        delta > i64::MIN,
    ensures
        edits::patched_db(
            d,
            width,
            seq![(row, seq![(off, delta)]), (row, seq![(off, (-delta) as i64)])],
        ) == d,
{
    let first = seq![(row, seq![(off, delta)])];
    let second = seq![(row, seq![(off, (-delta) as i64)])];
    let both = seq![(row, seq![(off, delta)]), (row, seq![(off, (-delta) as i64)])];
    assert(first + second =~= both);
    law_edits_in_turn(d, width, first, second);
    let mid = edits::patched_db(d, width, first);
    let end = edits::patched_db(mid, width, second);
    if d.len() > 0 {
        law_edit_adds_delta(d, width, row, off, delta, 0);
        assert forall|x: int| 0 <= x < d.len() implies end[x] == d[x] by {
            law_edit_adds_delta(d, width, row, off, delta, x);
            law_edit_adds_delta(mid, width, row, off, (-delta) as i64, x);
            arith::lemma_wrap_add(d[x] + delta, -delta);
            arith::lemma_wrap_id(d[x]);
        }
        law_edit_adds_delta(mid, width, row, off, (-delta) as i64, 0);
    } else {
        lemma_patched_len(d, width, both);
    }
    lemma_patched_len(d, width, both);
    assert(end =~= d);
}

proof fn lemma_patched_len(d: Seq<u32>, width: int, rows: Edits)
    ensures
        edits::patched_db(d, width, rows).len() == d.len(),
    decreases rows.len(),
{
    if rows.len() > 0 {
        lemma_patched_len(d, width, rows.drop_last());
    }
}

/// An edit of one cell moves the hint in the cell's column alone: in each row by the delta
/// times the entry of the public matrix for that row, modulo `2^32`.
pub proof fn law_edit_moves_column(
    out: Seq<u32>,
    h: Seq<u32>,
    a: Seq<u32>,
    lwe_dim: int,
    width: int,
    row: u32,
    off: u16,
    delta: i64,
    k: int,
    c: int,
)
    requires
        edits::is_patched(out, h, a, lwe_dim, width, seq![(row, seq![(off, delta)])]),
        0 <= k < lwe_dim,
        0 <= c < width,
    ensures
        out.len() == h.len(),
        out[k * width + c] == if c == off {
            ((h[k * width + c] + a[row * lwe_dim + k] * delta) % 0x1_0000_0000) as u32
        } else {
            h[k * width + c]
        },
{
    let cells = seq![(off, delta)];
    let rows = seq![(row, cells)];
    assert(rows.drop_last() =~= Seq::<(u32, Cells)>::empty());
    law_deltas_add_up(Seq::empty(), (off, delta), |o: u16| o as int, c);
    assert(Seq::<(u16, i64)>::empty().push((off, delta)) =~= cells);
    assert(edits::patch_sum(a, lwe_dim, Seq::empty(), k, c) == 0);
    assert(arith::cell(out, width, k, c) == out[k * width + c]);
    let f = a[row * lwe_dim + k] as int;
    assert(f * 0 == 0);
    arith::lemma_wrap_id(h[k * width + c]);
}

/// Preparing queries adds as many slots as asked for behind those that are there, and nothing
/// else; preparing decodes adds none.
pub proof fn law_prepared_slots(
    before: FrodoClientState,
    count: u32,
    mid: FrodoClientState,
    after: FrodoClientState,
)
    requires
        FrodoPirBackend::queries_prepared(before, count, mid),
        FrodoPirBackend::decodes_prepared(mid, after),
    ensures
        FrodoPirBackend::prepared_slots(mid) == FrodoPirBackend::prepared_slots(before) + count,
        FrodoPirBackend::prepared_slots(after) == FrodoPirBackend::prepared_slots(mid),
        FrodoPirBackend::in_flight_slots(mid) == FrodoPirBackend::in_flight_slots(before),
        FrodoPirBackend::in_flight_slots(after) == FrodoPirBackend::in_flight_slots(mid),
        mid.server_params() == before.server_params(),
        mid.hint_cells() == before.hint_cells(),
        after.hint_cells() == before.hint_cells(),
        forall|i: int|
            0 <= i < before.slots().len() ==> #[trigger] mid.slots()[i] == before.slots()[i],
        forall|i: int|
            0 <= i < mid.slots().len() ==> {
                &&& (#[trigger] after.slots()[i]).secret == mid.slots()[i].secret
                &&& after.slots()[i].b == mid.slots()[i].b
                &&& after.slots()[i].c is Some
            },
        after.pending() is Some ==> after.pending()->0.c is Some,
{
    let n = before.slots().len() as int;
    assert forall|i: int| 0 <= i < n implies #[trigger] mid.slots()[i] == before.slots()[i] by {
        assert(mid.slots().take(n)[i] == mid.slots()[i]);
    }
}

/// A query uses up the first prepared slot, if there is one, and puts it in flight; it differs
/// from the slot's own vector in the place of the row alone, by the scale.
pub proof fn law_query_takes_first_slot(
    before: FrodoClientState,
    row: u32,
    query: FrodoQuery,
    after: FrodoClientState,
    i: int,
)
    requires
        FrodoPirBackend::is_query(before, row, query, after),
        0 <= row < after.pending()->0.b.len(),
        0 <= i < after.pending()->0.b.len(),
    ensures
        FrodoPirBackend::in_flight_slots(after) == 1,
        before.slots().len() > 0 ==> {
            &&& after.pending() == Some(before.slots()[0])
            &&& FrodoPirBackend::prepared_slots(after) == FrodoPirBackend::prepared_slots(before)
                - 1
        },
        before.slots().len() == 0 ==> FrodoPirBackend::prepared_slots(after) == 0,
        query.b@.len() == after.pending()->0.b.len(),
        query.b@[i] == if i == row {
            ((after.pending()->0.b[i] + vstd::arithmetic::power2::pow2(
                (32 - before.server_params().params.plaintext_bits) as nat,
            )) % 0x1_0000_0000) as u32
        } else {
            after.pending()->0.b[i]
        },
{
}

/// Patching a client keeps its slots: their secrets and query vectors stay, a mask is there if
/// and only if there was one, and a mask that is there goes with the patched hint.
pub proof fn law_patched_slots(
    before: FrodoClientState,
    rows: Edits,
    after: FrodoClientState,
    i: int,
)
    requires
        FrodoPirBackend::client_patched(before, rows, after),
        0 <= i < before.slots().len(),
    ensures
        after.server_params() == before.server_params(),
        after.matrix() == before.matrix(),
        after.slots().len() == before.slots().len(),
        after.slots()[i].secret == before.slots()[i].secret,
        after.slots()[i].b == before.slots()[i].b,
        after.slots()[i].c is Some <==> before.slots()[i].c is Some,
        after.slots()[i].c matches Some(c) ==> c == patching::mask(
            before.slots()[i].secret,
            after.hint_cells(),
            before.server_params().params.lwe_dim as int,
            before.server_params().row_width as int,
        ),
        after.pending() is Some <==> before.pending() is Some,
        before.pending() is Some ==> {
            &&& after.pending()->0.secret == before.pending()->0.secret
            &&& after.pending()->0.b == before.pending()->0.b
            &&& after.pending()->0.c is Some <==> before.pending()->0.c is Some
        },
{
}

} // verus!
