//! What a client that knows the parameters alone gets out of a server.
use vstd::prelude::*;

use crate::backend::frodo::backend;
use crate::cuckoo_store::model;
use crate::hash;
use crate::hash_laws;
use crate::params::DEFAULT_SLOTS_PER_BUCKET;
use crate::server;
use crate::server::retrieval;
use crate::server::setup;
use crate::server::Server;

verus! {

/// The row that a client gets for candidate `j` of a keyword, which it derives from the keyword
/// and the parameters.
pub open spec fn fetched(
    server: Server,
    key: Seq<u8>,
    j: int,
    secret: Seq<u32>,
    error: Seq<u32>,
) -> Seq<u32> {
    retrieval::recovered_row(
        server,
        j,
        secret,
        error,
        hash::candidate(key, server.spec_params(), j) as int
            % server.spec_params().spec_seg() as int,
    )
}

/// One of the rows that a client gets holds the keyword's fingerprint together with the value.
pub open spec fn reaches_client(
    server: Server,
    key: Seq<u8>,
    value: Seq<u8>,
    secrets: Seq<Seq<u32>>,
    errors: Seq<Seq<u32>>,
) -> bool {
    exists|j: int, i: int|
        0 <= j < server.spec_params().arity.spec_degree() && 0 <= i < 4
            && #[trigger] server::row_holds(
            server.spec_params(),
            fetched(server, key, j, secrets[j], errors[j]),
            i,
            hash::tag(key, server.spec_params().fingerprint_bits),
            value,
        )
}

/// Every segment's query is hidden with a ternary error, one entry per bucket.
pub open spec fn hidden_well(server: Server, errors: Seq<Seq<u32>>) -> bool {
    forall|j: int|
        0 <= j < server.spec_params().arity.spec_degree() ==> (#[trigger] errors[j]).len()
            == server.spec_params().spec_seg() && backend::all_ternary(errors[j])
}

/// A pair that the map holds reaches every client.
pub proof fn law_held_pair_reaches_client(
    server: Server,
    key: Seq<u8>,
    value: Seq<u8>,
    secrets: Seq<Seq<u32>>,
    errors: Seq<Seq<u32>>,
)
    requires
        server.wf(),
        server.synced(),
        server.spec_params().within_budget(),
        hidden_well(server, errors),
        exists|j: int, s: int|
            0 <= j < server.spec_params().arity.spec_degree() && 0 <= s < 4
                && #[trigger] server.spec_map().cells()[hash::candidate(
                key,
                server.spec_params(),
                j,
            ) * 4 + s] == Some((hash::tag(key, server.spec_params().fingerprint_bits), value)),
    ensures
        reaches_client(server, key, value, secrets, errors),
{
    let map = server.spec_map();
    let params = server.spec_params();
    let k = params.arity.spec_degree() as int;
    let tag = hash::tag(key, params.fingerprint_bits);
    assert forall|j: int| 0 <= j < k implies #[trigger] map.buckets_of(key)[j] == hash::candidate(
        key,
        params,
        j,
    ) by {
        hash_laws::law_client_finds_the_map(map, key, j);
    }
    hash_laws::law_client_finds_the_map(map, key, 0);
    let (j0, s0) = choose|j: int, s: int|
        0 <= j < k && 0 <= s < 4 && #[trigger] map.cells()[hash::candidate(key, params, j) * 4 + s]
            == Some((tag, value));
    assert(map.cells()[map.buckets_of(key)[j0] * 4 + s0] == Some((tag, value)));
    assert(model::has_pair(
        map.cells(),
        map.spec_b() as int,
        map.buckets_of(key),
        map.tag_of(key),
        value,
    ));
    assert(server.spec_segments().len() == k);
    retrieval::law_keyword_is_recovered(server, key, value, secrets, errors);
    let (j, i) = choose|j: int, i: int|
        0 <= j < k && 0 <= i < 4 && #[trigger] server::row_holds(
            params,
            retrieval::recovered_row(
                server,
                j,
                secrets[j],
                errors[j],
                map.buckets_of(key)[j] as int % params.spec_seg() as int,
            ),
            i,
            map.tag_of(key),
            value,
        );
    assert(map.buckets_of(key)[j] == hash::candidate(key, params, j));
    assert(server::row_holds(
        params,
        fetched(server, key, j, secrets[j], errors[j]),
        i,
        tag,
        value,
    ));
}

/// A pair among the candidates of a scheme is a pair among those that a client derives.
proof fn lemma_pair_at_candidate(server: Server, key: Seq<u8>, value: Seq<u8>)
    requires
        server.wf(),
        model::has_pair(
            server.spec_map().cells(),
            4,
            server.spec_map().buckets_of(key),
            server.spec_map().tag_of(key),
            value,
        ),
    ensures
        exists|j: int, s: int|
            0 <= j < server.spec_params().arity.spec_degree() && 0 <= s < 4
                && #[trigger] server.spec_map().cells()[hash::candidate(
                key,
                server.spec_params(),
                j,
            ) * 4 + s] == Some((hash::tag(key, server.spec_params().fingerprint_bits), value)),
{
    let map = server.spec_map();
    let buckets = map.buckets_of(key);
    hash_laws::law_client_finds_the_map(map, key, 0);
    let (j, s) = choose|j: int, s: int|
        0 <= j < buckets.len() && 0 <= s < 4 && #[trigger] map.cells()[buckets[j] * 4 + s] == Some(
            (map.tag_of(key), value),
        );
    hash_laws::law_client_finds_the_map(map, key, j);
    assert(map.cells()[hash::candidate(key, server.spec_params(), j) * 4 + s] == Some(
        (map.tag_of(key), value),
    ));
}

/// Every entry of a setup reaches every client.
pub proof fn law_entry_reaches_client(
    server: Server,
    entries: Seq<(Vec<u8>, Vec<u8>)>,
    i: int,
    secrets: Seq<Seq<u32>>,
    errors: Seq<Seq<u32>>,
)
    requires
        server.wf(),
        server.synced(),
        server.spec_params().within_budget(),
        setup::filling(server.spec_params(), server.spec_seed(), entries).error is None,
        server.spec_map().cells() == setup::filling(
            server.spec_params(),
            server.spec_seed(),
            entries,
        ).cells,
        0 <= i < entries.len(),
        hidden_well(server, errors),
    ensures
        reaches_client(server, entries[i].0@, entries[i].1@, secrets, errors),
{
    setup::law_entries_are_held(server.spec_params(), server.spec_seed(), entries, i);
    assert(DEFAULT_SLOTS_PER_BUCKET == 4);
    lemma_pair_at_candidate(server, entries[i].0@, entries[i].1@);
    law_held_pair_reaches_client(server, entries[i].0@, entries[i].1@, secrets, errors);
}

/// A pair that was inserted reaches every client.
pub proof fn law_inserted_reaches_client(
    before: Server,
    after: Server,
    key: Seq<u8>,
    value: Seq<u8>,
    secrets: Seq<Seq<u32>>,
    errors: Seq<Seq<u32>>,
)
    requires
        before.wf(),
        after.wf(),
        after.synced(),
        after.spec_params() == before.spec_params(),
        after.spec_params().within_budget(),
        before.spec_map().insertion(key, value).error is None,
        after.spec_map().cells() == before.spec_map().insertion(key, value).cells,
        hidden_well(after, errors),
    ensures
        reaches_client(after, key, value, secrets, errors),
{
    let map = before.spec_map();
    let params = before.spec_params();
    assert(DEFAULT_SLOTS_PER_BUCKET == 4);
    model::law_inserted_is_found(
        map.spec_scheme(),
        map.spec_b() as int,
        params.fingerprint_bits,
        params.value_len,
        map.spec_max_kicks(),
        map.stream_seed(),
        map.stream_pos(),
        map.cells(),
        key,
        value,
        (Seq::empty(), 0, value),
    );
    lemma_pair_at_candidate(after, key, value);
    law_held_pair_reaches_client(after, key, value, secrets, errors);
}

/// A value that was replaced reaches every client.
pub proof fn law_updated_reaches_client(
    before: Server,
    after: Server,
    key: Seq<u8>,
    value: Seq<u8>,
    y: int,
    secrets: Seq<Seq<u32>>,
    errors: Seq<Seq<u32>>,
)
    requires
        before.wf(),
        after.wf(),
        after.synced(),
        after.spec_params() == before.spec_params(),
        after.spec_params().within_budget(),
        before.spec_map().place_of(key) == Some(y),
        after.spec_map().cells() == before.spec_map().cells().update(
            y,
            Some((before.spec_map().tag_of(key), value)),
        ),
        hidden_well(after, errors),
    ensures
        reaches_client(after, key, value, secrets, errors),
{
    let map = before.spec_map();
    let params = before.spec_params();
    let b = map.spec_b() as int;
    let buckets = map.buckets_of(key);
    assert(DEFAULT_SLOTS_PER_BUCKET == 4);
    model::lemma_candidates(map.spec_scheme(), key, params.fingerprint_bits);
    model::lemma_first_found(map.spec_scheme(), map.cells(), b, buckets, map.tag_of(key), 0);
    let j = choose|j: int| 0 <= j < buckets.len() && (#[trigger] buckets[j]) == y / b;
    let s = y % b;
    vstd::arithmetic::div_mod::lemma_fundamental_div_mod(y, b);
    vstd::arithmetic::div_mod::lemma_mod_bound(y, b);
    assert(b * (y / b) == buckets[j] * b) by (nonlinear_arith)
        requires
            buckets[j] == y / b,
    ;
    assert(after.spec_map().cells()[buckets[j] * b + s] == Some((map.tag_of(key), value)));
    assert(after.spec_map().buckets_of(key) == buckets);
    lemma_pair_at_candidate(after, key, value);
    law_held_pair_reaches_client(after, key, value, secrets, errors);
}

} // verus!
