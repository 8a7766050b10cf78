//! Sizes of setup, query and response bundles.
use vstd::prelude::*;

use crate::backend::frodo::backend::FrodoPirBackend;
use crate::backend::frodo::backend::{FrodoHint, FrodoQuery, FrodoResponse};
use crate::backend::frodo::backend::FrodoServerParams;
use crate::backend::BackendWireSize;
use crate::wire::bundles;
use crate::wire::bundles::{PirQueryBundle, PirResponseBundle, ServerSetupBundle};

verus! {

/// The size of a list is the sum of the sizes of its parts, whatever their number.
pub proof fn law_list_sizes<B: BackendWireSize>(
    queries: Seq<B::Query>,
    q: B::Query,
    responses: Seq<B::Response>,
    r: B::Response,
    hints: Seq<B::Hint>,
    h: B::Hint,
    params: Seq<B::ServerParams>,
    p: B::ServerParams,
)
    ensures
        bundles::queries_size::<B>(Seq::empty()) == 0,
        bundles::responses_size::<B>(Seq::empty()) == 0,
        bundles::hints_size::<B>(Seq::empty()) == 0,
        bundles::params_size::<B>(Seq::empty()) == 0,
        bundles::queries_size::<B>(queries.push(q)) == bundles::queries_size::<B>(queries)
            + B::query_size(q),
        bundles::responses_size::<B>(responses.push(r)) == bundles::responses_size::<B>(responses)
            + B::response_size(r),
        bundles::hints_size::<B>(hints.push(h)) == bundles::hints_size::<B>(hints) + B::hint_size(h),
        bundles::params_size::<B>(params.push(p)) == bundles::params_size::<B>(params)
            + B::server_params_size(p),
{
    assert(queries.push(q).drop_last() =~= queries);
    assert(responses.push(r).drop_last() =~= responses);
    assert(hints.push(h).drop_last() =~= hints);
    assert(params.push(p).drop_last() =~= params);
}

/// A query bundle takes twelve bytes more than its queries, and a response bundle twelve more
/// than its responses: the epoch and the count.
pub proof fn law_exchange_sizes<B: BackendWireSize>(
    query: PirQueryBundle<B>,
    response: PirResponseBundle<B>,
)
    ensures
        query.spec_wire_byte_size() == 12 + bundles::queries_size::<B>(query.queries@),
        response.spec_wire_byte_size() == 12 + bundles::responses_size::<B>(response.responses@),
{
}

/// A setup bundle takes 37 bytes more than its parameters and its hints: the geometry, the
/// epoch and two counts.
pub proof fn law_setup_size<B: BackendWireSize>(setup: ServerSetupBundle<B>)
    ensures
        setup.spec_wire_byte_size() == 37 + bundles::params_size::<B>(setup.backend_params@)
            + bundles::hints_size::<B>(setup.hints@),
{
}

/// Queries, responses and hints take four bytes per residue, and parameters 32.
pub proof fn law_residue_sizes(
    q: FrodoQuery,
    r: FrodoResponse,
    h: FrodoHint,
    p: FrodoServerParams,
)
    ensures
        FrodoPirBackend::query_size(q) == 4 * q.b@.len(),
        FrodoPirBackend::response_size(r) == 4 * r.a@.len(),
        FrodoPirBackend::hint_size(h) == 4 * h.data@.len(),
        FrodoPirBackend::server_params_size(p) == 32,
{
}

} // verus!
