//! Setup, query and response bundles and their sizes.
use vstd::prelude::*;

use crate::backend::{BackendWireSize, IndexPirBackend};
use crate::geometry::CuckooParams;

verus! {

/// Bytes of a store geometry: one for the scheme, four for each of the five numbers.
pub const CUCKOO_PARAMS_BYTES: usize = 21;

/// The server's whole preprocessing state, sent to a fresh client.
#[derive(Clone)]
pub struct ServerSetupBundle<B: IndexPirBackend> {
    /// Geometry of the store.
    pub params: CuckooParams,
    /// Public parameters, one per segment.
    pub backend_params: Vec<B::ServerParams>,
    /// Hints, one per segment.
    pub hints: Vec<B::Hint>,
    /// Server epoch when the bundle was emitted.
    pub epoch: u64,
}

/// One query per segment, addressed to a server epoch.
#[derive(Clone)]
pub struct PirQueryBundle<B: IndexPirBackend> {
    /// Epoch that the queries were built for.
    pub epoch: u64,
    /// Queries, one per segment.
    pub queries: Vec<B::Query>,
}

/// One response per segment, with the epoch that produced it.
#[derive(Clone)]
pub struct PirResponseBundle<B: IndexPirBackend> {
    /// Epoch that the responses were computed under.
    pub epoch: u64,
    /// Responses, one per segment.
    pub responses: Vec<B::Response>,
}

/// Bytes of the given queries.
pub open spec fn queries_size<B: BackendWireSize>(q: Seq<B::Query>) -> nat
    decreases q.len(),
{
    if q.len() == 0 {
        0
    } else {
        queries_size::<B>(q.drop_last()) + B::query_size(q.last())
    }
}

/// Bytes of the given responses.
pub open spec fn responses_size<B: BackendWireSize>(r: Seq<B::Response>) -> nat
    decreases r.len(),
{
    if r.len() == 0 {
        0
    } else {
        responses_size::<B>(r.drop_last()) + B::response_size(r.last())
    }
}

/// Bytes of the given hints.
pub open spec fn hints_size<B: BackendWireSize>(h: Seq<B::Hint>) -> nat
    decreases h.len(),
{
    if h.len() == 0 {
        0
    } else {
        hints_size::<B>(h.drop_last()) + B::hint_size(h.last())
    }
}

/// Bytes of the given public parameters.
pub open spec fn params_size<B: BackendWireSize>(p: Seq<B::ServerParams>) -> nat
    decreases p.len(),
{
    if p.len() == 0 {
        0
    } else {
        params_size::<B>(p.drop_last()) + B::server_params_size(p.last())
    }
}

proof fn lemma_queries_size<B: BackendWireSize>(q: Seq<B::Query>, i: int)
    requires
        0 <= i < q.len(),
    ensures
        queries_size::<B>(q.take(i + 1)) == queries_size::<B>(q.take(i)) + B::query_size(q[i]),
        queries_size::<B>(q.take(i + 1)) <= queries_size::<B>(q),
    decreases q.len() - i,
{
    assert(q.take(i + 1).drop_last() =~= q.take(i));
    if i + 1 < q.len() {
        lemma_queries_size::<B>(q, i + 1);
    } else {
        assert(q.take(i + 1) =~= q);
    }
}

proof fn lemma_responses_size<B: BackendWireSize>(r: Seq<B::Response>, i: int)
    requires
        0 <= i < r.len(),
    ensures
        responses_size::<B>(r.take(i + 1)) == responses_size::<B>(r.take(i)) + B::response_size(
            r[i],
        ),
        responses_size::<B>(r.take(i + 1)) <= responses_size::<B>(r),
    decreases r.len() - i,
{
    assert(r.take(i + 1).drop_last() =~= r.take(i));
    if i + 1 < r.len() {
        lemma_responses_size::<B>(r, i + 1);
    } else {
        assert(r.take(i + 1) =~= r);
    }
}

proof fn lemma_hints_size<B: BackendWireSize>(h: Seq<B::Hint>, i: int)
    requires
        0 <= i < h.len(),
    ensures
        hints_size::<B>(h.take(i + 1)) == hints_size::<B>(h.take(i)) + B::hint_size(h[i]),
        hints_size::<B>(h.take(i + 1)) <= hints_size::<B>(h),
    decreases h.len() - i,
{
    assert(h.take(i + 1).drop_last() =~= h.take(i));
    if i + 1 < h.len() {
        lemma_hints_size::<B>(h, i + 1);
    } else {
        assert(h.take(i + 1) =~= h);
    }
}

proof fn lemma_params_size<B: BackendWireSize>(p: Seq<B::ServerParams>, i: int)
    requires
        0 <= i < p.len(),
    ensures
        params_size::<B>(p.take(i + 1)) == params_size::<B>(p.take(i)) + B::server_params_size(p[i]),
        params_size::<B>(p.take(i + 1)) <= params_size::<B>(p),
    decreases p.len() - i,
{
    assert(p.take(i + 1).drop_last() =~= p.take(i));
    if i + 1 < p.len() {
        lemma_params_size::<B>(p, i + 1);
    } else {
        assert(p.take(i + 1) =~= p);
    }
}

impl<B: BackendWireSize> ServerSetupBundle<B> {
    /// Bytes of this bundle: geometry, epoch, and two length-prefixed lists.
    pub open spec fn spec_wire_byte_size(self) -> nat {
        21 + 8 + 4 + params_size::<B>(self.backend_params@) + 4 + hints_size::<B>(self.hints@)
    }

    /// Minimum encoded size of this bundle in bytes.
    pub fn wire_byte_size(&self) -> (n: usize)
        requires
            self.spec_wire_byte_size() <= usize::MAX,
        ensures
            n == self.spec_wire_byte_size(),
    {
        let mut bytes: usize = CUCKOO_PARAMS_BYTES + 8;
        bytes = bytes + 4;
        let mut i: usize = 0;
        proof {
            assert(self.backend_params@.take(0) =~= Seq::<B::ServerParams>::empty());
        }
        while i < self.backend_params.len()
            invariant
                i <= self.backend_params@.len(),
                self.spec_wire_byte_size() <= usize::MAX,
                bytes == 33 + params_size::<B>(self.backend_params@.take(i as int)),
            decreases self.backend_params@.len() - i,
        {
            proof {
                lemma_params_size::<B>(self.backend_params@, i as int);
            }
            bytes = bytes + B::server_params_byte_size(&self.backend_params[i]);
            i = i + 1;
        }
        proof {
            assert(self.backend_params@.take(i as int) =~= self.backend_params@);
            assert(self.hints@.take(0) =~= Seq::<B::Hint>::empty());
        }
        bytes = bytes + 4;
        let mut j: usize = 0;
        while j < self.hints.len()
            invariant
                j <= self.hints@.len(),
                self.spec_wire_byte_size() <= usize::MAX,
                bytes == 37 + params_size::<B>(self.backend_params@) + hints_size::<B>(
                    self.hints@.take(j as int),
                ),
            decreases self.hints@.len() - j,
        {
            proof {
                lemma_hints_size::<B>(self.hints@, j as int);
            }
            bytes = bytes + B::hint_byte_size(&self.hints[j]);
            j = j + 1;
        }
        proof {
            assert(self.hints@.take(j as int) =~= self.hints@);
        }
        bytes
    }
}

impl<B: BackendWireSize> PirQueryBundle<B> {
    /// Bytes of this bundle: epoch and a length-prefixed list.
    pub open spec fn spec_wire_byte_size(self) -> nat {
        8 + 4 + queries_size::<B>(self.queries@)
    }

    /// Minimum encoded size of this bundle in bytes.
    pub fn wire_byte_size(&self) -> (n: usize)
        requires
            self.spec_wire_byte_size() <= usize::MAX,
        ensures
            n == self.spec_wire_byte_size(),
    {
        let mut bytes: usize = 8 + 4;
        let mut i: usize = 0;
        proof {
            assert(self.queries@.take(0) =~= Seq::<B::Query>::empty());
        }
        while i < self.queries.len()
            invariant
                i <= self.queries@.len(),
                self.spec_wire_byte_size() <= usize::MAX,
                bytes == 12 + queries_size::<B>(self.queries@.take(i as int)),
            decreases self.queries@.len() - i,
        {
            proof {
                lemma_queries_size::<B>(self.queries@, i as int);
            }
            bytes = bytes + B::query_byte_size(&self.queries[i]);
            i = i + 1;
        }
        proof {
            assert(self.queries@.take(i as int) =~= self.queries@);
        }
        bytes
    }
}

impl<B: BackendWireSize> PirResponseBundle<B> {
    /// Bytes of this bundle: epoch and a length-prefixed list.
    pub open spec fn spec_wire_byte_size(self) -> nat {
        8 + 4 + responses_size::<B>(self.responses@)
    }

    /// Minimum encoded size of this bundle in bytes.
    pub fn wire_byte_size(&self) -> (n: usize)
        requires
            self.spec_wire_byte_size() <= usize::MAX,
        ensures
            n == self.spec_wire_byte_size(),
    {
        let mut bytes: usize = 8 + 4;
        let mut i: usize = 0;
        proof {
            assert(self.responses@.take(0) =~= Seq::<B::Response>::empty());
        }
        while i < self.responses.len()
            invariant
                i <= self.responses@.len(),
                self.spec_wire_byte_size() <= usize::MAX,
                bytes == 12 + responses_size::<B>(self.responses@.take(i as int)),
            decreases self.responses@.len() - i,
        {
            proof {
                lemma_responses_size::<B>(self.responses@, i as int);
            }
            bytes = bytes + B::response_byte_size(&self.responses[i]);
            i = i + 1;
        }
        proof {
            assert(self.responses@.take(i as int) =~= self.responses@);
        }
        bytes
    }
}

} // verus!
