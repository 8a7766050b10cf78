//! Index-PIR backends.
pub mod edit_laws;
pub mod edits;
pub mod frodo;
pub mod gemm;
pub mod linear_laws;
pub mod matvec;
pub mod parallel;
pub mod patch;
pub mod prg;
pub mod simple;

use vstd::prelude::*;

use crate::wire::hint_delta;
use crate::wire::sparse::Edits;

verus! {

/// A single-server index-PIR backend.
///
/// What each operation asks for and gives is stated by the backend itself, through the
/// specification functions.
pub trait IndexPirBackend: Sized {
    /// Tunable knobs supplied at server construction.
    type Config: Clone + Default;

    /// Public parameters of one segment.
    type ServerParams: Clone;

    /// Server-local state derived from the parameters.
    type HintMaterial: Default;

    /// Preprocessing matrix held by server and client.
    type Hint: Clone;

    /// State that the client keeps for one segment.
    type ClientState;

    /// Query for one segment.
    type Query;

    /// Response for one segment.
    type Response;

    /// Whether a segment of this shape can be set up.
    spec fn can_set_up(
        config: Self::Config,
        db: Seq<u32>,
        n_rows: u32,
        row_width: u32,
        plaintext_bits: u32,
    ) -> bool;

    /// What setting a segment up gives.
    spec fn is_set_up(
        config: Self::Config,
        db: Seq<u32>,
        n_rows: u32,
        row_width: u32,
        plaintext_bits: u32,
        params: Self::ServerParams,
        material: Self::HintMaterial,
        hint: Self::Hint,
    ) -> bool;

    /// Shape of the matrix that the backend multiplies.
    spec fn matrix_shape(params: Self::ServerParams) -> (u32, u32);

    /// Whether the parameters describe a segment that fits in memory.
    spec fn usable(params: Self::ServerParams) -> bool;

    /// Whether `material` is what the parameters expand to.
    spec fn is_expansion(params: Self::ServerParams, material: Self::HintMaterial) -> bool;

    /// Whether a client can be set up with the hint.
    spec fn hint_fits(params: Self::ServerParams, hint: Self::Hint) -> bool;

    /// Whether the state is consistent.
    spec fn client_ok(state: Self::ClientState) -> bool;

    /// Whether the state is that of a client that was just set up.
    spec fn is_fresh(
        state: Self::ClientState,
        params: Self::ServerParams,
        hint: Self::Hint,
    ) -> bool;

    /// Whether `row` is a row of the client's segment.
    spec fn has_row(state: Self::ClientState, row: u32) -> bool;

    /// What querying a row gives, and how it changes the state.
    spec fn is_query(
        before: Self::ClientState,
        row: u32,
        query: Self::Query,
        after: Self::ClientState,
    ) -> bool;

    /// Whether the query can be answered from the segment.
    spec fn can_answer(
        params: Self::ServerParams,
        db: Seq<u32>,
        n_rows: u32,
        row_width: u32,
        query: Self::Query,
    ) -> bool;

    /// What answering a query gives.
    spec fn is_answer(
        params: Self::ServerParams,
        db: Seq<u32>,
        n_rows: u32,
        row_width: u32,
        query: Self::Query,
        response: Self::Response,
    ) -> bool;

    /// Whether the response can be decoded: a query is in flight and the lengths match.
    spec fn can_decode(state: Self::ClientState, response: Self::Response) -> bool;

    /// The cells that a response decodes to.
    spec fn decoded(state: Self::ClientState, response: Self::Response) -> Seq<u32>;

    /// Preprocesses the cells of one segment, row-major, `n_rows` by `row_width`.
    fn server_setup(
        config: &Self::Config,
        db: &[u32],
        n_rows: u32,
        row_width: u32,
        plaintext_bits: u32,
    ) -> (out: (Self::ServerParams, Self::HintMaterial, Self::Hint))
        requires
            Self::can_set_up(*config, db@, n_rows, row_width, plaintext_bits),
        ensures
            Self::is_set_up(
                *config,
                db@,
                n_rows,
                row_width,
                plaintext_bits,
                out.0,
                out.1,
                out.2,
            ),
    ;

    /// Shape of the matrix that the backend multiplies, as recorded in the parameters.
    fn db_matrix_shape(params: &Self::ServerParams) -> (shape: (u32, u32))
        ensures
            shape == Self::matrix_shape(*params),
    ;

    /// Derives the material from the parameters again.
    fn expand_hint_material(params: &Self::ServerParams) -> (material: Self::HintMaterial)
        requires
            Self::usable(*params),
        ensures
            Self::is_expansion(*params, material),
    ;

    /// Sets up the client side of one segment.
    fn client_setup(params: &Self::ServerParams, hint: &Self::Hint) -> (state: Self::ClientState)
        requires
            Self::usable(*params),
            Self::hint_fits(*params, *hint),
        ensures
            Self::client_ok(state),
            Self::is_fresh(state, *params, *hint),
    ;

    /// Builds the query for a row, and keeps in the state what decoding its answer takes.
    fn client_query(state: &mut Self::ClientState, row: u32) -> (query: Self::Query)
        requires
            Self::client_ok(*old(state)),
            Self::has_row(*old(state), row),
        ensures
            Self::client_ok(*final(state)),
            Self::is_query(*old(state), row, query, *final(state)),
    ;

    /// Answers a query from the cells of the segment.
    fn server_answer(
        params: &Self::ServerParams,
        db: &[u32],
        n_rows: u32,
        row_width: u32,
        query: &Self::Query,
    ) -> (response: Self::Response)
        requires
            Self::can_answer(*params, db@, n_rows, row_width, *query),
        ensures
            Self::is_answer(*params, db@, n_rows, row_width, *query, response),
    ;

    /// Decodes the response to the query in flight into the cells of its row.
    fn client_decode(state: &Self::ClientState, response: &Self::Response) -> (cells: Vec<u32>)
        requires
            Self::client_ok(*state),
            Self::can_decode(*state, *response),
        ensures
            cells@ == Self::decoded(*state, *response),
    ;
}

/// A backend whose hints can be updated without being computed anew.
///
/// Edits are `(row, [(cell_offset, delta)])`. Every mode leaves the same state.
pub trait IncrementalPirBackend: IndexPirBackend {
    /// Whether the edits lie within the segment and the hint belongs to it.
    spec fn can_patch(
        params: Self::ServerParams,
        material: Self::HintMaterial,
        hint: Self::Hint,
        rows: Edits,
    ) -> bool;

    /// Whether `after` is the hint `before` after the edits.
    spec fn hint_patched(
        params: Self::ServerParams,
        material: Self::HintMaterial,
        before: Self::Hint,
        rows: Edits,
        after: Self::Hint,
    ) -> bool;

    /// Whether the edits lie within the client's segment.
    spec fn can_patch_client(state: Self::ClientState, rows: Edits) -> bool;

    /// Whether `after` is the client's state `before` after the edits.
    spec fn client_patched(before: Self::ClientState, rows: Edits, after: Self::ClientState) -> bool;

    /// Applies the edits to the server's hint.
    fn server_patch_hint(
        params: &Self::ServerParams,
        material: &Self::HintMaterial,
        hint: &mut Self::Hint,
        row_deltas: &[(u32, Vec<(u16, i64)>)],
        mode: HintPatchMode,
    )
        requires
            Self::can_patch(
                *params,
                *material,
                *old(hint),
                hint_delta::edits_view(row_deltas@),
            ),
        ensures
            Self::hint_patched(
                *params,
                *material,
                *old(hint),
                hint_delta::edits_view(row_deltas@),
                *final(hint),
            ),
    ;

    /// Applies the edits to everything that the client derived from the hint.
    fn client_patch_state(
        state: &mut Self::ClientState,
        row_deltas: &[(u32, Vec<(u16, i64)>)],
        mode: HintPatchMode,
    )
        requires
            Self::client_ok(*old(state)),
            Self::can_patch_client(*old(state), hint_delta::edits_view(row_deltas@)),
        ensures
            Self::client_ok(*final(state)),
            Self::client_patched(
                *old(state),
                hint_delta::edits_view(row_deltas@),
                *final(state),
            ),
    ;
}

/// A backend whose setup can be split over workers, with the same outcome.
pub trait ParallelSetupBackend: IndexPirBackend {
    /// Setup split over `threads` workers.
    fn server_setup_parallel(
        config: &Self::Config,
        db: &[u32],
        n_rows: u32,
        row_width: u32,
        plaintext_bits: u32,
        threads: usize,
    ) -> (out: (Self::ServerParams, Self::HintMaterial, Self::Hint))
        requires
            Self::can_set_up(*config, db@, n_rows, row_width, plaintext_bits),
        ensures
            Self::is_set_up(
                *config,
                db@,
                n_rows,
                row_width,
                plaintext_bits,
                out.0,
                out.1,
                out.2,
            ),
    ;

    /// Expansion split over `threads` workers.
    fn expand_hint_material_parallel(params: &Self::ServerParams, threads: usize) -> (material:
        Self::HintMaterial)
        requires
            Self::usable(*params),
        ensures
            Self::is_expansion(*params, material),
    ;

    /// Client setup with the expansion split over `threads` workers.
    fn client_setup_parallel(
        params: &Self::ServerParams,
        hint: &Self::Hint,
        threads: usize,
    ) -> (state: Self::ClientState)
        requires
            Self::usable(*params),
            Self::hint_fits(*params, *hint),
        ensures
            Self::client_ok(state),
            Self::is_fresh(state, *params, *hint),
    ;
}

/// A backend that can prepare queries and decodes ahead of time.
pub trait PrecomputingPirBackend: IndexPirBackend {
    /// Slots that are prepared and not yet used.
    spec fn prepared_slots(state: Self::ClientState) -> nat;

    /// Slots that are in flight.
    spec fn in_flight_slots(state: Self::ClientState) -> nat;

    /// Whether `after` is `before` with `count` more prepared slots.
    spec fn queries_prepared(before: Self::ClientState, count: u32, after: Self::ClientState) -> bool;

    /// Whether `after` is `before` with the decode material attached to every slot.
    spec fn decodes_prepared(before: Self::ClientState, after: Self::ClientState) -> bool;

    /// Appends `count` slots of query material.
    fn client_precompute_queries(state: &mut Self::ClientState, count: u32)
        requires
            Self::client_ok(*old(state)),
        ensures
            Self::client_ok(*final(state)),
            Self::queries_prepared(*old(state), count, *final(state)),
    ;

    /// Attaches decode material to every slot, prepared or in flight, that has none.
    fn client_precompute_decodes(state: &mut Self::ClientState)
        requires
            Self::client_ok(*old(state)),
        ensures
            Self::client_ok(*final(state)),
            Self::decodes_prepared(*old(state), *final(state)),
    ;

    /// Number of slots that are prepared and not yet used.
    fn prepared_slot_count(state: &Self::ClientState) -> (n: usize)
        ensures
            n == Self::prepared_slots(*state),
    ;

    /// Number of slots that are in flight.
    fn in_flight_slot_count(state: &Self::ClientState) -> (n: usize)
        ensures
            n == Self::in_flight_slots(*state),
    ;
}

/// A backend whose responses can be rewound to an earlier database.
pub trait ResponseRewind: IndexPirBackend {
    /// Whether query, response and edits belong to the client's segment.
    spec fn can_rewind(
        state: Self::ClientState,
        query: Self::Query,
        response: Self::Response,
        rows: Edits,
    ) -> bool;

    /// Whether `after` is `before` with the query times the edits taken off.
    spec fn rewound(
        state: Self::ClientState,
        query: Self::Query,
        before: Self::Response,
        rows: Edits,
        after: Self::Response,
    ) -> bool;

    /// Takes the query times the accumulated edits off a response.
    fn rewind_response(
        state: &Self::ClientState,
        query: &Self::Query,
        resp: &mut Self::Response,
        deltas: &[(u32, Vec<(u16, i64)>)],
    )
        requires
            Self::can_rewind(*state, *query, *old(resp), hint_delta::edits_view(deltas@)),
        ensures
            Self::rewound(
                *state,
                *query,
                *old(resp),
                hint_delta::edits_view(deltas@),
                *final(resp),
            ),
    ;
}

/// How a hint patch is carried out; both ways leave the same hint.
#[derive(Clone, Copy, Debug, PartialEq, Eq, Hash, Structural)]
pub enum HintPatchMode {
    /// A dense update per edited row.
    RowLevel,
    /// A sparse update per edited cell.
    EntryLevel,
}

impl Default for HintPatchMode {
    fn default() -> (m: Self)
        ensures
            m == HintPatchMode::EntryLevel,
    {
        HintPatchMode::EntryLevel
    }
}

/// How a client keeps up with the server's mutations; both ways decode to the same values.
#[derive(Clone, Copy, Debug, PartialEq, Eq, Hash, Structural)]
pub enum ClientUpdateMode {
    /// Every delta is folded into the hint at once.
    HintPatch,
    /// The first hint is kept, deltas are accumulated, and responses are rewound to it.
    Rewind,
}

impl Default for ClientUpdateMode {
    fn default() -> (m: Self)
        ensures
            m == ClientUpdateMode::Rewind,
    {
        ClientUpdateMode::Rewind
    }
}

/// Encoded sizes of a backend's messages, at fixed-width little-endian encoding of every
/// scalar and without framing.
pub trait BackendWireSize: IndexPirBackend {
    /// Bytes of a query.
    spec fn query_size(q: Self::Query) -> nat;

    /// Bytes of a response.
    spec fn response_size(r: Self::Response) -> nat;

    /// Bytes of a hint.
    spec fn hint_size(h: Self::Hint) -> nat;

    /// Bytes of the public parameters.
    spec fn server_params_size(p: Self::ServerParams) -> nat;

    /// Encoded size of one query in bytes.
    fn query_byte_size(q: &Self::Query) -> (n: usize)
        requires
            Self::query_size(*q) <= usize::MAX,
        ensures
            n == Self::query_size(*q),
    ;

    /// Encoded size of one response in bytes.
    fn response_byte_size(r: &Self::Response) -> (n: usize)
        requires
            Self::response_size(*r) <= usize::MAX,
        ensures
            n == Self::response_size(*r),
    ;

    /// Encoded size of one hint in bytes.
    fn hint_byte_size(h: &Self::Hint) -> (n: usize)
        requires
            Self::hint_size(*h) <= usize::MAX,
        ensures
            n == Self::hint_size(*h),
    ;

    /// Encoded size of one set of public parameters in bytes.
    fn server_params_byte_size(p: &Self::ServerParams) -> (n: usize)
        requires
            Self::server_params_size(*p) <= usize::MAX,
        ensures
            n == Self::server_params_size(*p),
    ;
}

} // verus!
