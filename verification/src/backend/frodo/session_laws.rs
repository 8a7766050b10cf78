//! Whole sessions: from the setup of a segment to the row that a client reads.
use vstd::arithmetic::power2::*;
use vstd::prelude::*;

use crate::backend::edits;
use crate::backend::frodo::backend;
use crate::backend::frodo::backend::{
    FrodoClientState,
    FrodoHint,
    FrodoHintMaterial,
    FrodoPirBackend,
    FrodoQuery,
    FrodoResponse,
    FrodoServerParams,
};
use crate::backend::frodo::laws;
use crate::backend::frodo::params::FrodoConfig;
use crate::backend::frodo::sampler;
use crate::backend::frodo::scaling;
use crate::backend::{IncrementalPirBackend, IndexPirBackend, PrecomputingPirBackend, ResponseRewind};
use crate::wire::sparse::Edits;

verus! {

/// A segment that can be read: every cell has the plaintext width, and the rows are few enough
/// for the scale.
pub open spec fn readable(db: Seq<u32>, n_rows: u32, row_width: u32, bits: u32) -> bool {
    &&& 1 <= bits <= 31
    &&& db.len() == n_rows * row_width
    &&& forall|x: int| 0 <= x < db.len() ==> #[trigger] db[x] < pow2(bits as nat)
    &&& n_rows * (pow2(bits as nat) - 1) < pow2((31 - bits) as nat)
}

/// What a setup hands out: the shape and the widths, the public matrix of its seed, and the hint
/// of the database.
pub proof fn law_setup_parts(
    config: FrodoConfig,
    db: Seq<u32>,
    n_rows: u32,
    row_width: u32,
    bits: u32,
    params: FrodoServerParams,
    material: FrodoHintMaterial,
    hint: FrodoHint,
)
    requires
        FrodoPirBackend::is_set_up(config, db, n_rows, row_width, bits, params, material, hint),
    ensures
        params.n_rows == n_rows,
        params.row_width == row_width,
        params.params.lwe_dim == config.lwe_dim,
        params.params.plaintext_bits == bits,
        FrodoPirBackend::matrix_shape(params) == (n_rows, row_width),
        material.a@ == sampler::matrix_a(
            params.params.seed@,
            n_rows as nat,
            config.lwe_dim as nat,
        ),
        FrodoPirBackend::is_expansion(params, material),
        FrodoPirBackend::hint_fits(params, hint),
        edits::is_hint(
            hint.data@,
            material.a@,
            db,
            config.lwe_dim as int,
            row_width as int,
            n_rows as int,
        ),
{
}

/// What a client starts with: the parameters and the hint that it was given, the public matrix
/// of the seed, and no slots.
pub proof fn law_fresh_client(state: FrodoClientState, params: FrodoServerParams, hint: FrodoHint)
    requires
        FrodoPirBackend::is_fresh(state, params, hint),
    ensures
        state.server_params() == params,
        state.hint_cells() == hint.data@,
        state.matrix() == sampler::matrix_a(
            params.params.seed@,
            params.n_rows as nat,
            params.params.lwe_dim as nat,
        ),
        FrodoPirBackend::prepared_slots(state) == 0,
        FrodoPirBackend::in_flight_slots(state) == 0,
{
}

/// What counts as ternary.
pub proof fn law_ternary(s: Seq<u32>, i: int)
    requires
        backend::all_ternary(s),
        0 <= i < s.len(),
    ensures
        s[i] == 0 || s[i] == 1 || s[i] == 0xffff_ffff,
{
    assert(sampler::is_ternary(s[i]));
}

/// Whatever is drawn, and however much is prepared beforehand: a client that is set up with the
/// hint of a readable segment, and asks for a row of it, decodes the answer to that row.
pub proof fn law_session_reads_row(
    config: FrodoConfig,
    db: Seq<u32>,
    n_rows: u32,
    row_width: u32,
    bits: u32,
    params: FrodoServerParams,
    material: FrodoHintMaterial,
    hint: FrodoHint,
    fresh: FrodoClientState,
    count: u32,
    queued: FrodoClientState,
    masked: FrodoClientState,
    row: u32,
    query: FrodoQuery,
    asked: FrodoClientState,
    response: FrodoResponse,
)
    requires
        readable(db, n_rows, row_width, bits),
        FrodoPirBackend::is_set_up(config, db, n_rows, row_width, bits, params, material, hint),
        FrodoPirBackend::is_fresh(fresh, params, hint),
        FrodoPirBackend::queries_prepared(fresh, count, queued),
        FrodoPirBackend::decodes_prepared(queued, masked),
        FrodoPirBackend::client_ok(masked),
        row < n_rows,
        FrodoPirBackend::is_query(masked, row, query, asked),
        FrodoPirBackend::client_ok(asked),
        FrodoPirBackend::is_answer(params, db, n_rows, row_width, query, response),
    ensures
        FrodoPirBackend::decoded(asked, response) == db.subrange(
            row * row_width,
            (row + 1) * row_width,
        ),
{
    scaling::lemma_delta(bits);
    laws::law_query_answer_decode(masked, row, query, asked, db, response);
}

/// The same with decode material that was never attached.
pub proof fn law_plain_session_reads_row(
    config: FrodoConfig,
    db: Seq<u32>,
    n_rows: u32,
    row_width: u32,
    bits: u32,
    params: FrodoServerParams,
    material: FrodoHintMaterial,
    hint: FrodoHint,
    fresh: FrodoClientState,
    row: u32,
    query: FrodoQuery,
    asked: FrodoClientState,
    response: FrodoResponse,
)
    requires
        readable(db, n_rows, row_width, bits),
        FrodoPirBackend::is_set_up(config, db, n_rows, row_width, bits, params, material, hint),
        FrodoPirBackend::is_fresh(fresh, params, hint),
        FrodoPirBackend::client_ok(fresh),
        row < n_rows,
        FrodoPirBackend::is_query(fresh, row, query, asked),
        FrodoPirBackend::client_ok(asked),
        FrodoPirBackend::is_answer(params, db, n_rows, row_width, query, response),
    ensures
        FrodoPirBackend::decoded(asked, response) == db.subrange(
            row * row_width,
            (row + 1) * row_width,
        ),
{
    scaling::lemma_delta(bits);
    laws::law_query_answer_decode(fresh, row, query, asked, db, response);
}

/// Edits that name rows and cells of the segment.
pub open spec fn in_segment(rows: Edits, n_rows: u32, row_width: u32) -> bool {
    &&& forall|i: int| 0 <= i < rows.len() ==> (#[trigger] rows[i]).0 < n_rows
    &&& forall|i: int, x: int|
        0 <= i < rows.len() && 0 <= x < rows[i].1.len() ==> (#[trigger] rows[i].1[x]).0 < row_width
}

proof fn lemma_in_segment(rows: Edits, n_rows: u32, row_width: u32)
    ensures
        in_segment(rows, n_rows, row_width) <==> edits::edits_fit(
            rows,
            n_rows as int,
            row_width as int,
        ),
{
    if in_segment(rows, n_rows, row_width) {
        assert forall|i: int| 0 <= i < rows.len() implies (#[trigger] rows[i]).0 < n_rows
            && edits::cells_fit(rows[i].1, row_width as int) by {
            assert forall|x: int| 0 <= x < rows[i].1.len() implies (#[trigger] rows[i].1[x]).0
                < row_width by {}
        }
    }
    if edits::edits_fit(rows, n_rows as int, row_width as int) {
        assert forall|i: int, x: int|
            0 <= i < rows.len() && 0 <= x < rows[i].1.len() implies (#[trigger] rows[i].1[x]).0
            < row_width by {
            assert(edits::cells_fit(rows[i].1, row_width as int));
        }
    }
}

/// Edits can be applied wherever they name rows and cells of the segment: to a hint, to a client,
/// and to a response.
pub proof fn law_patchable(
    params: FrodoServerParams,
    material: FrodoHintMaterial,
    hint: FrodoHint,
    state: FrodoClientState,
    query: FrodoQuery,
    response: FrodoResponse,
    rows: Edits,
)
    requires
        FrodoPirBackend::is_expansion(params, material),
        FrodoPirBackend::hint_fits(params, hint),
        state.server_params() == params,
        query.b@.len() == params.n_rows,
        response.a@.len() == params.row_width,
    ensures
        FrodoPirBackend::can_patch(params, material, hint, rows) <==> in_segment(
            rows,
            params.n_rows,
            params.row_width,
        ),
        FrodoPirBackend::can_patch_client(state, rows) <==> in_segment(
            rows,
            params.n_rows,
            params.row_width,
        ),
        FrodoPirBackend::can_rewind(state, query, response, rows) <==> in_segment(
            rows,
            params.n_rows,
            params.row_width,
        ),
{
    lemma_in_segment(rows, params.n_rows, params.row_width);
}

/// A client that follows the server's edits reads the edited rows: after the same edits to the
/// database, to the server's hint and to the client, the two hints agree, and what the client
/// asks for and decodes is the row of the edited database.
pub proof fn law_patched_session_reads_row(
    config: FrodoConfig,
    db: Seq<u32>,
    n_rows: u32,
    row_width: u32,
    bits: u32,
    params: FrodoServerParams,
    material: FrodoHintMaterial,
    hint: FrodoHint,
    hint2: FrodoHint,
    fresh: FrodoClientState,
    rows: Edits,
    patched: FrodoClientState,
    row: u32,
    query: FrodoQuery,
    asked: FrodoClientState,
    response: FrodoResponse,
)
    requires
        db.len() == n_rows * row_width,
        readable(edits::patched_db(db, row_width as int, rows), n_rows, row_width, bits),
        FrodoPirBackend::is_set_up(config, db, n_rows, row_width, bits, params, material, hint),
        FrodoPirBackend::is_fresh(fresh, params, hint),
        FrodoPirBackend::client_ok(fresh),
        in_segment(rows, n_rows, row_width),
        FrodoPirBackend::hint_patched(params, material, hint, rows, hint2),
        FrodoPirBackend::client_patched(fresh, rows, patched),
        FrodoPirBackend::client_ok(patched),
        row < n_rows,
        FrodoPirBackend::is_query(patched, row, query, asked),
        FrodoPirBackend::client_ok(asked),
        FrodoPirBackend::is_answer(
            params,
            edits::patched_db(db, row_width as int, rows),
            n_rows,
            row_width,
            query,
            response,
        ),
    ensures
        patched.hint_cells() == hint2.data@,
        FrodoPirBackend::decoded(asked, response) == edits::patched_db(
            db,
            row_width as int,
            rows,
        ).subrange(row * row_width, (row + 1) * row_width),
{
    scaling::lemma_delta(bits);
    lemma_in_segment(rows, n_rows, row_width);
    laws::law_client_follows_server(params, material, hint, hint2, fresh, patched, rows);
    laws::law_patched_client_decodes_patched_db(fresh, patched, db, rows);
    laws::law_query_answer_decode(
        patched,
        row,
        query,
        asked,
        edits::patched_db(db, row_width as int, rows),
        response,
    );
}

/// An answer that was given after edits, rewound by these edits, is the answer that would have
/// been given before them.
pub proof fn law_rewound_answer(
    state: FrodoClientState,
    params: FrodoServerParams,
    db: Seq<u32>,
    n_rows: u32,
    row_width: u32,
    query: FrodoQuery,
    rows: Edits,
    before: FrodoResponse,
    after: FrodoResponse,
)
    requires
        query.b@.len() == n_rows,
        db.len() == n_rows * row_width,
        in_segment(rows, n_rows, row_width),
        FrodoPirBackend::is_answer(
            params,
            edits::patched_db(db, row_width as int, rows),
            n_rows,
            row_width,
            query,
            before,
        ),
        FrodoPirBackend::rewound(state, query, before, rows, after),
    ensures
        FrodoPirBackend::is_answer(params, db, n_rows, row_width, query, after),
{
    lemma_in_segment(rows, n_rows, row_width);
    laws::law_rewind(state, query, before, after, db, row_width as int, rows);
}

} // verus!
