//! What row updates and a setup do, cell by cell, and when they are refused.
use vstd::arithmetic::power2::*;
use vstd::prelude::*;

use crate::arith;
use crate::backend::prg;
use crate::cuckoo_store::insertion_laws;
use crate::cuckoo_store::insertion_laws::Attempt;
use crate::cuckoo_store::{MapError, PerSegmentRow, UpdateBatch};
use crate::hash;
use crate::hash::SegmentedScheme;
use crate::matrix::Matrix;
use crate::params::FilterParams;
use crate::server::respond;
use crate::server::setup;
use crate::server::update;
use crate::server::update::UpdateError;
use crate::server::Server;

verus! {

// ---------------------------------------------------------------- refusals
/// There is such a segment.
pub open spec fn names_segment(u: PerSegmentRow, p: FilterParams) -> bool {
    u.segment_idx < p.arity.spec_degree()
}

/// The segments have such a row.
pub open spec fn names_row(u: PerSegmentRow, p: FilterParams) -> bool {
    (u.row_local_idx + 1) * p.arity.spec_degree() <= p.num_buckets
}

/// The row has the elements of four slots.
pub open spec fn has_length(u: PerSegmentRow, p: FilterParams) -> bool {
    u.new_payload@.len() == 4 * (p.spec_fp_elems() + p.row_elems)
}

/// The elements have the width of the parameters.
pub open spec fn has_width(u: PerSegmentRow, p: FilterParams) -> bool {
    forall|c: int|
        0 <= c < u.new_payload@.len() ==> (#[trigger] u.new_payload@[c]) < pow2(
            p.mat_elem_bit_len as nat,
        )
}

/// The update can be written.
pub open spec fn is_good(u: PerSegmentRow, p: FilterParams) -> bool {
    names_segment(u, p) && names_row(u, p) && has_length(u, p) && has_width(u, p)
}

proof fn lemma_names_row(u: PerSegmentRow, p: FilterParams)
    ensures
        names_row(u, p) <==> u.row_local_idx < p.spec_seg(),
{
    let d = p.arity.spec_degree() as int;
    let n = p.num_buckets as int;
    let s = n / d;
    let r = u.row_local_idx as int;
    vstd::arithmetic::div_mod::lemma_fundamental_div_mod(n, d);
    vstd::arithmetic::div_mod::lemma_mod_bound(n, d);
    if r < s {
        assert((r + 1) * d <= n) by (nonlinear_arith)
            requires
                r + 1 <= s,
                d * s <= n,
                d > 0,
        ;
    } else {
        assert((r + 1) * d > n) by (nonlinear_arith)
            requires
                r >= s,
                n < d * s + d,
                d > 0,
        ;
    }
}

/// Updates are written if and only if each of them names a segment and a row, has the
/// elements of a row, and has no element that is too wide.
pub proof fn law_updates_accepted(updates: Seq<PerSegmentRow>, p: FilterParams)
    ensures
        update::first_refusal(updates, p) is None <==> forall|i: int|
            0 <= i < updates.len() ==> is_good(#[trigger] updates[i], p),
{
    if update::first_refusal(updates, p) is None {
        update::lemma_none_refused(updates, p);
        assert forall|i: int| 0 <= i < updates.len() implies is_good(#[trigger] updates[i], p) by {
            lemma_names_row(updates[i], p);
        }
    }
    if forall|i: int| 0 <= i < updates.len() ==> is_good(#[trigger] updates[i], p) {
        assert forall|i: int| 0 <= i < updates.len() implies update::refusal(
            #[trigger] updates[i],
            p,
        ) is None by {
            assert(is_good(updates[i], p));
            lemma_names_row(updates[i], p);
        }
        update::lemma_all_good(updates, p);
    }
}

/// The first update that cannot be written says why all of them are refused: it names no
/// segment, or else no row, or else has the wrong length, or else an element that is too wide.
pub proof fn law_updates_refused(updates: Seq<PerSegmentRow>, p: FilterParams, i: int)
    requires
        0 <= i < updates.len(),
        !is_good(updates[i], p),
        forall|k: int| 0 <= k < i ==> is_good(#[trigger] updates[k], p),
    ensures
        update::first_refusal(updates, p) == Some(
            if !names_segment(updates[i], p) {
                UpdateError::SegmentOutOfBounds
            } else if !names_row(updates[i], p) {
                UpdateError::RowIndexOutOfBounds
            } else if !has_length(updates[i], p) {
                UpdateError::ShapeMismatch
            } else {
                UpdateError::PayloadOutOfRange
            },
        ),
    decreases updates.len(),
{
    let init = updates.drop_last();
    if i < init.len() {
        assert forall|k: int| 0 <= k < i implies is_good(#[trigger] init[k], p) by {
            assert(init[k] == updates[k]);
        }
        law_updates_refused(init, p, i);
    } else {
        law_updates_accepted(init, p);
        assert forall|k: int| 0 <= k < init.len() implies is_good(#[trigger] init[k], p) by {
            assert(init[k] == updates[k]);
        }
        lemma_names_row(updates.last(), p);
    }
}

// ---------------------------------------------------------------- rows
/// After good updates, a row that update `i` names and no later one names holds the elements
/// of update `i`.
pub proof fn law_row_holds_update(
    cells: Seq<u32>,
    p: FilterParams,
    updates: Seq<PerSegmentRow>,
    i: int,
    c: int,
)
    requires
        cells.len() == p.spec_seg() * p.spec_row_elems_bucket(),
        forall|k: int| 0 <= k < updates.len() ==> is_good(#[trigger] updates[k], p),
        0 <= i < updates.len(),
        forall|k: int|
            i < k < updates.len() ==> !((#[trigger] updates[k]).segment_idx
                == updates[i].segment_idx && updates[k].row_local_idx == updates[i].row_local_idx),
        0 <= c < updates[i].new_payload@.len(),
    ensures
        ({
            let width = p.spec_row_elems_bucket();
            let after = update::written(cells, width, updates[i].segment_idx as int, updates);
            &&& after.len() == cells.len()
            &&& after[updates[i].row_local_idx * width + c] == updates[i].new_payload@[c]
        }),
    decreases updates.len(),
{
    let width = p.spec_row_elems_bucket();
    let j = updates[i].segment_idx as int;
    let r = updates[i].row_local_idx as int;
    let last = updates.last();
    let init = updates.drop_last();
    let before = update::written(cells, width, j, init);
    assert(updates[updates.len() - 1] == last);
    assert forall|k: int| 0 <= k < init.len() implies is_good(#[trigger] init[k], p) by {
        assert(init[k] == updates[k]);
    }
    lemma_names_row(last, p);
    lemma_names_row(updates[i], p);
    lemma_same_length(cells, p, j, init);
    if i < init.len() {
        assert forall|k: int| i < k < init.len() implies !((#[trigger] init[k]).segment_idx
            == init[i].segment_idx && init[k].row_local_idx == init[i].row_local_idx) by {
            assert(init[k] == updates[k]);
        }
        law_row_holds_update(cells, p, init, i, c);
    }
    if last.segment_idx == j {
        update::lemma_with_row(
            before,
            p.spec_seg() as int,
            width,
            last.row_local_idx as int,
            last.new_payload@,
        );
        let after = update::with_row(before, width, last.row_local_idx as int, last.new_payload@);
        assert(arith::cell(after, width, r, c) == if r == last.row_local_idx {
            last.new_payload@[c]
        } else {
            arith::cell(before, width, r, c)
        });
    }
}

/// A row that no update names is as it was.
pub proof fn law_other_rows_stay(
    cells: Seq<u32>,
    p: FilterParams,
    updates: Seq<PerSegmentRow>,
    j: int,
    r: int,
    c: int,
)
    requires
        cells.len() == p.spec_seg() * p.spec_row_elems_bucket(),
        forall|k: int| 0 <= k < updates.len() ==> is_good(#[trigger] updates[k], p),
        forall|k: int|
            0 <= k < updates.len() ==> !((#[trigger] updates[k]).segment_idx == j
                && updates[k].row_local_idx == r),
        0 <= r < p.spec_seg(),
        0 <= c < p.spec_row_elems_bucket(),
    ensures
        ({
            let width = p.spec_row_elems_bucket();
            update::written(cells, width, j, updates)[r * width + c] == cells[r * width + c]
        }),
    decreases updates.len(),
{
    if updates.len() > 0 {
        let width = p.spec_row_elems_bucket();
        let last = updates.last();
        let init = updates.drop_last();
        let before = update::written(cells, width, j, init);
        assert(updates[updates.len() - 1] == last);
        assert forall|k: int| 0 <= k < init.len() implies is_good(#[trigger] init[k], p) && !(
        init[k].segment_idx == j && init[k].row_local_idx == r) by {
            assert(init[k] == updates[k]);
        }
        lemma_names_row(last, p);
        lemma_same_length(cells, p, j, init);
        law_other_rows_stay(cells, p, init, j, r, c);
        if last.segment_idx == j {
            update::lemma_with_row(
                before,
                p.spec_seg() as int,
                width,
                last.row_local_idx as int,
                last.new_payload@,
            );
            let after = update::with_row(
                before,
                width,
                last.row_local_idx as int,
                last.new_payload@,
            );
            assert(arith::cell(after, width, r, c) == arith::cell(before, width, r, c));
        }
    }
}

proof fn lemma_same_length(cells: Seq<u32>, p: FilterParams, j: int, updates: Seq<PerSegmentRow>)
    requires
        cells.len() == p.spec_seg() * p.spec_row_elems_bucket(),
        forall|k: int| 0 <= k < updates.len() ==> is_good(#[trigger] updates[k], p),
    ensures
        update::written(cells, p.spec_row_elems_bucket(), j, updates).len() == cells.len(),
    decreases updates.len(),
{
    if updates.len() > 0 {
        let width = p.spec_row_elems_bucket();
        let last = updates.last();
        let init = updates.drop_last();
        assert(updates[updates.len() - 1] == last);
        assert forall|k: int| 0 <= k < init.len() implies is_good(#[trigger] init[k], p) by {
            assert(init[k] == updates[k]);
        }
        lemma_names_row(last, p);
        lemma_same_length(cells, p, j, init);
        if last.segment_idx == j {
            update::lemma_with_row(
                update::written(cells, width, j, init),
                p.spec_seg() as int,
                width,
                last.row_local_idx as int,
                last.new_payload@,
            );
        }
    }
}

// ---------------------------------------------------------------- setup
/// The attempt to insert a pair into a server's map, which has four slots per bucket and
/// allows 500 kicks.
pub open spec fn entry_attempt(
    params: FilterParams,
    seed: Seq<u8>,
    before: crate::cuckoo_store::model::Outcome,
    entry: (Vec<u8>, Vec<u8>),
) -> Attempt<SegmentedScheme> {
    Attempt {
        sch: SegmentedScheme {
            degree: params.arity.spec_degree(),
            segment_size: params.spec_seg(),
        },
        b: 4,
        fp_bits: params.fingerprint_bits,
        value_len: params.value_len,
        max_kicks: 500,
        seed,
        pos: before.pos,
        cells: before.cells,
        key: entry.0@,
        value: entry.1@,
    }
}

/// A setup inserts the entries one by one into an empty map, each into what those before it
/// left, and ends at the first that cannot be inserted.
pub proof fn law_entries_one_by_one(
    params: FilterParams,
    seed: Seq<u8>,
    entries: Seq<(Vec<u8>, Vec<u8>)>,
    entry: (Vec<u8>, Vec<u8>),
)
    ensures
        ({
            let none = setup::filling(params, seed, Seq::empty());
            &&& none.error is None
            &&& none.pos == 0
            &&& none.cells.len() == 4 * params.arity.spec_degree() * params.spec_seg()
            &&& forall|x: int| 0 <= x < none.cells.len() ==> (#[trigger] none.cells[x]) is None
        }),
        ({
            let before = setup::filling(params, seed, entries);
            let after = setup::filling(params, seed, entries.push(entry));
            &&& before.error is Some ==> after == before
            &&& before.error is None ==> after == insertion_laws::outcome(
                entry_attempt(params, seed, before, entry),
            )
        }),
{
    assert(entries.push(entry).drop_last() =~= entries);
    let k = params.arity.spec_degree() as int;
    let s = params.spec_seg() as int;
    assert(0 <= k * s * 4 == 4 * k * s) by (nonlinear_arith)
        requires
            k >= 0,
            s >= 0,
    ;
}

/// Databases are refused only where their cells cannot be counted, and so are public matrices
/// and hints.
pub proof fn law_setup_sizes(params: FilterParams)
    ensures
        setup::databases_fit(params) <==> params.spec_seg() * (4 * (params.spec_fp_elems()
            + params.row_elems)) <= usize::MAX,
        setup::matrices_fit(params) <==> 1774 * params.spec_seg() <= usize::MAX && 1774 * (4 * (
        params.spec_fp_elems() + params.row_elems)) <= usize::MAX,
{
}

/// The public matrix of segment `j` has 1774 rows of one entry per bucket, and its entries are
/// the words of the key stream of the segment's seed, row by row.
pub proof fn law_public_matrix(a: Matrix, params: FilterParams, seed: Seq<u8>, j: int, i: int, c: int)
    requires
        setup::is_public_matrix(a, params, seed, j),
        0 <= i < 1774,
        0 <= c < params.spec_seg(),
    ensures
        a.spec_rows() == 1774,
        a.spec_cols() == params.spec_seg(),
        a.at(i, c) == prg::keystream_word(
            hash::derived_seed(seed, j),
            (i * params.spec_seg() + c) as nat,
        ),
{
    arith::lemma_cell(i, c, 1774, params.spec_seg() as int);
}

// ---------------------------------------------------------------- servers
/// What a server hands out: one hint and one database per segment, in order.
pub proof fn law_server_parts(server: Server, j: int)
    requires
        server.wf(),
        0 <= j < server.spec_params().arity.spec_degree(),
    ensures
        server.hints().len() == server.spec_params().arity.spec_degree(),
        server.databases().len() == server.spec_params().arity.spec_degree(),
        server.hints()[j] == server.spec_segments()[j].h,
        server.databases()[j] == server.spec_segments()[j].d,
        server.hints()[j].is_product(server.spec_segments()[j].a, server.databases()[j]),
        setup::is_public_matrix(
            server.spec_segments()[j].a,
            server.spec_params(),
            server.spec_seed(),
            j,
        ),
{
    assert(server.spec_segments()[j].in_step());
}

/// A server whose databases are those of its map stays so, whatever is done to the map; where
/// the map refuses, its databases and hints stay as they are, and where it does not, exactly the
/// rows that are handed out are written.
pub proof fn law_server_stays_synced(
    before: Server,
    after: Server,
    r: Result<UpdateBatch, MapError>,
    j: int,
)
    requires
        after.follows(before, r),
        before.wf(),
        0 <= j < before.spec_params().arity.spec_degree(),
    ensures
        after.wf(),
        after.spec_params() == before.spec_params(),
        after.spec_seed() == before.spec_seed(),
        before.synced() ==> after.synced(),
        r is Err ==> after.spec_segments() == before.spec_segments(),
        r matches Ok(batch) ==> {
            &&& after.spec_segments()[j].a == before.spec_segments()[j].a
            &&& after.spec_segments()[j].d.spec_elems() == update::written(
                before.spec_segments()[j].d.spec_elems(),
                4 * (before.spec_params().spec_fp_elems() + before.spec_params().row_elems),
                j,
                batch.rows@,
            )
        },
{
}

/// Queries fit where each has one entry per row of its database, and only there.
pub proof fn law_fitting_queries(databases: Seq<&Matrix>, queries: Seq<Vec<u32>>)
    ensures
        respond::queries_fit(databases, queries) <==> forall|j: int|
            0 <= j < queries.len() ==> (#[trigger] queries[j])@.len() == databases[j].spec_rows(),
{
}

} // verus!
