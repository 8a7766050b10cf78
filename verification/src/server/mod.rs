//! The server: databases, hints and their updates.
pub mod client_laws;
pub mod fold_laws;
pub mod hint_patch;
pub mod respond;
pub mod retrieval;
pub mod setup;
pub mod slots;
pub mod update;
pub mod update_laws;

use vstd::prelude::*;

use crate::arith;
use crate::cuckoo_store;
use crate::cuckoo_store::model;
use crate::cuckoo_store::row;
use crate::cuckoo_store::{MapError, PerSegmentRow, UpdateBatch};
use crate::fingerprint;
use crate::lwe;
use crate::matrix::{Matrix, MatrixError};
use crate::params::{FilterParams, LWE_DIMENSION, SEED_LEN};
use crate::serialization;
use crate::serialization::{batch_hint_to_bytes, params_to_bytes};
use crate::server::respond::respond;
use crate::server::setup::{setup, SegmentedMap, SetupError};
use crate::server::update::{apply, PerSegmentState, UpdateError};

verus! {

/// A server: the map, and for each of its segments the public matrix, the database and the
/// hint.
pub struct Server {
    params: FilterParams,
    seed_mu: [u8; SEED_LEN],
    segments: Vec<PerSegmentState>,
    map: SegmentedMap,
}

/// The rows of the given buckets are good updates.
proof fn lemma_rows_good(map: SegmentedMap, seed: Seq<u8>, rows: Seq<PerSegmentRow>, buckets: Seq<
    u32,
>)
    requires
        setup::is_map(map, map.spec_params(), seed),
        cuckoo_store::are_rows(
            rows,
            map.spec_params(),
            map.spec_b() as int,
            map.cells(),
            buckets,
        ),
        forall|i: int|
            0 <= i < buckets.len() ==> (#[trigger] buckets[i]) < map.spec_params().arity.spec_degree()
                * map.spec_params().spec_seg(),
    ensures
        update::first_refusal(rows, map.spec_params()) is None,
{
    let params = map.spec_params();
    let seg = params.spec_seg() as int;
    let k = params.arity.spec_degree() as int;
    assert forall|i: int| 0 <= i < rows.len() implies update::refusal(
        #[trigger] rows[i],
        params,
    ) is None by {
        let g = buckets[i] as int;
        assert(cuckoo_store::is_row(
            rows[i],
            params,
            map.spec_b() as int,
            map.cells(),
            buckets[i],
        ));
        lemma_bucket_place(g, k, seg);
        row::law_row_in_range(params, map.spec_b() as int, map.cells(), g);
    }
    update::lemma_all_good(rows, params);
}

/// The segment of a bucket and its place there.
proof fn lemma_bucket_place(g: int, k: int, seg: int)
    requires
        0 <= g < k * seg,
        0 < seg,
    ensures
        0 <= g / seg < k,
        0 <= g % seg < seg,
        g == (g / seg) * seg + g % seg,
{
    vstd::arithmetic::div_mod::lemma_fundamental_div_mod(g, seg);
    vstd::arithmetic::div_mod::lemma_mod_bound(g, seg);
    vstd::arithmetic::div_mod::lemma_div_pos_is_pos(g, seg);
    assert(seg * (g / seg) == (g / seg) * seg) by (nonlinear_arith);
    assert(g / seg < k) by (nonlinear_arith)
        requires
            (g / seg) * seg <= g,
            g < k * seg,
            0 < seg,
    ;
}

/// The last update of a row is one of the updates of that row.
proof fn lemma_last_update(updates: Seq<PerSegmentRow>, j: int, r: int)
    ensures
        match update::last_update(updates, j, r) {
            Some(u) => exists|i: int|
                0 <= i < updates.len() && #[trigger] updates[i] == u && u.segment_idx == j
                    && u.row_local_idx == r,
            None => forall|i: int|
                0 <= i < updates.len() ==> !((#[trigger] updates[i]).segment_idx == j
                    && updates[i].row_local_idx == r),
        },
    decreases updates.len(),
{
    if updates.len() > 0 {
        let init = updates.drop_last();
        let last = updates.last();
        assert(updates[updates.len() - 1] == last);
        lemma_last_update(init, j, r);
        if !(last.segment_idx == j && last.row_local_idx == r) {
            match update::last_update(init, j, r) {
                Some(u) => {
                    let i = choose|i: int|
                        0 <= i < init.len() && #[trigger] init[i] == u && u.segment_idx == j
                            && u.row_local_idx == r;
                    assert(updates[i] == u);
                },
                None => {
                    assert forall|i: int| 0 <= i < updates.len() implies !((
                    #[trigger] updates[i]).segment_idx == j && updates[i].row_local_idx == r) by {
                        if i < init.len() {
                            assert(init[i] == updates[i]);
                        }
                    }
                },
            }
        }
    }
}

/// Writing the rows of all changed buckets turns the database of the map before into that of
/// the map after.
proof fn lemma_rows_sync(
    before: SegmentedMap,
    after: SegmentedMap,
    seed: Seq<u8>,
    rows: Seq<PerSegmentRow>,
    buckets: Seq<u32>,
    d0: Matrix,
    d1: Matrix,
    j: int,
)
    requires
        setup::is_map(before, before.spec_params(), seed),
        setup::is_map(after, before.spec_params(), seed),
        0 <= j < before.spec_params().arity.spec_degree(),
        cuckoo_store::are_rows(
            rows,
            after.spec_params(),
            after.spec_b() as int,
            after.cells(),
            buckets,
        ),
        forall|i: int|
            0 <= i < buckets.len() ==> (#[trigger] buckets[i])
                < before.spec_params().arity.spec_degree() * before.spec_params().spec_seg(),
        model::others_same(
            before.cells(),
            after.cells(),
            before.spec_b() as int,
            before.spec_params().arity.spec_degree() * before.spec_params().spec_seg(),
            buckets,
        ),
        before.is_matrix(d0, j),
        d1.wf(),
        d1.spec_rows() == d0.spec_rows(),
        d1.spec_cols() == d0.spec_cols(),
        d1.spec_elems() == update::written(
            d0.spec_elems(),
            before.spec_params().spec_row_elems_bucket(),
            j,
            rows,
        ),
    ensures
        after.is_matrix(d1, j),
{
    let params = before.spec_params();
    let seg = params.spec_seg() as int;
    let k = params.arity.spec_degree() as int;
    let b = before.spec_b() as int;
    let width = params.spec_row_elems_bucket();
    row::lemma_slot_elems(params, b);
    lemma_rows_good(after, seed, rows, buckets);
    assert forall|l: int| 0 <= l < d1.spec_rows() implies #[trigger] d1.spec_row(l)
        == row::bucket_row(params, b, after.cells(), j * seg + l) by {
        let g = j * seg + l;
        arith::lemma_cell(j, l, k, seg);
        arith::lemma_cell_row(l, seg, width);
        lemma_last_update(rows, j, l);
        let target = row::bucket_row(params, b, after.cells(), g);
        assert forall|c: int| 0 <= c < width implies d1.spec_row(l)[c] == target[c] by {
            update::law_last_write_wins(d0.spec_elems(), params, j, rows, l, c);
            assert(d1.spec_row(l)[c] == arith::cell(d1.spec_elems(), width, l, c));
            match update::last_update(rows, j, l) {
                Some(u) => {
                    let i = choose|i: int|
                        0 <= i < rows.len() && #[trigger] rows[i] == u && u.segment_idx == j
                            && u.row_local_idx == l;
                    assert(cuckoo_store::is_row(rows[i], params, b, after.cells(), buckets[i]));
                    lemma_bucket_place(buckets[i] as int, k, seg);
                    assert(buckets[i] == g);
                },
                None => {
                    assert(!buckets.contains(g as u32)) by {
                        if buckets.contains(g as u32) {
                            let i = choose|i: int|
                                0 <= i < buckets.len() && buckets[i] == g as u32;
                            assert(cuckoo_store::is_row(
                                rows[i],
                                params,
                                b,
                                after.cells(),
                                buckets[i],
                            ));
                        }
                    }
                    assert(model::same_bucket(before.cells(), after.cells(), b, g));
                    assert(d0.spec_row(l) == row::bucket_row(params, b, before.cells(), g));
                    assert(d0.spec_row(l)[c] == arith::cell(d0.spec_elems(), width, l, c));
                    let n = row::slot_elems(params);
                    lemma_slot_of(c, b, n);
                    assert(after.cells()[g * b + c / n] == before.cells()[g * b + c / n]);
                },
            }
        }
        assert(d1.spec_row(l) =~= target);
    }
}

/// The slot that an element of a row belongs to.
proof fn lemma_slot_of(c: int, b: int, n: int)
    requires
        0 <= c < b * n,
        0 < n,
    ensures
        0 <= c / n < b,
{
    lemma_bucket_place(c, b, n);
}

/// Kept touches name the touched buckets.
proof fn lemma_kept(before: SegmentedMap, after: SegmentedMap, n: int, touched: Seq<u32>)
    requires
        model::others_same(before.cells(), after.cells(), before.spec_b() as int, n, touched),
        forall|i: int| 0 <= i < touched.len() ==> (#[trigger] touched[i]) < n,
    ensures
        model::others_same(
            before.cells(),
            after.cells(),
            before.spec_b() as int,
            n,
            model::last_touches(touched, touched.len() as int),
        ),
        forall|i: int|
            0 <= i < model::last_touches(touched, touched.len() as int).len() ==> (
            #[trigger] model::last_touches(touched, touched.len() as int)[i]) < n,
{
    let kept = model::last_touches(touched, touched.len() as int);
    model::lemma_last_touches(touched, touched.len() as int);
    assert forall|g: u32| g < n && !(#[trigger] kept.contains(g)) implies model::same_bucket(
        before.cells(),
        after.cells(),
        before.spec_b() as int,
        g as int,
    ) by {
        if touched.contains(g) {
            let i = choose|i: int| 0 <= i < touched.len() && touched[i] == g;
            assert(kept.contains(touched[i]));
        }
    }
    assert forall|i: int| 0 <= i < kept.len() implies (#[trigger] kept[i]) < n by {
        assert(touched.contains(kept[i]));
    }
}

impl Server {
    /// The parameters.
    pub closed spec fn spec_params(self) -> FilterParams {
        self.params
    }

    /// The public seed.
    pub closed spec fn spec_seed(self) -> Seq<u8> {
        self.seed_mu@
    }

    /// The segments.
    pub closed spec fn spec_segments(self) -> Seq<PerSegmentState> {
        self.segments@
    }

    /// The map.
    pub closed spec fn spec_map(self) -> SegmentedMap {
        self.map
    }

    /// The server is consistent: the map and the matrices are those of the parameters and the
    /// seed, and every hint is that of its database.
    pub open spec fn wf(self) -> bool {
        &&& setup::is_map(self.spec_map(), self.spec_params(), self.spec_seed())
        &&& update::segments_ok(self.spec_segments(), self.spec_params(), LWE_DIMENSION as int)
        &&& forall|j: int|
            0 <= j < self.spec_segments().len() ==> {
                &&& setup::is_public_matrix(
                    (#[trigger] self.spec_segments()[j]).a,
                    self.spec_params(),
                    self.spec_seed(),
                    j,
                )
                &&& self.spec_segments()[j].in_step()
            }
    }

    /// The databases are those of the map.
    pub open spec fn synced(self) -> bool {
        forall|j: int|
            0 <= j < self.spec_segments().len() ==> self.spec_map().is_matrix(
                (#[trigger] self.spec_segments()[j]).d,
                j,
            )
    }

    /// The hints.
    pub open spec fn hints(self) -> Seq<Matrix> {
        Seq::new(self.spec_segments().len(), |j: int| self.spec_segments()[j].h)
    }

    /// The databases.
    pub open spec fn databases(self) -> Seq<Matrix> {
        Seq::new(self.spec_segments().len(), |j: int| self.spec_segments()[j].d)
    }

    /// Sets a server up with the entries, and hands out the encoded hints and parameters for
    /// the clients.
    pub fn setup(
        params: &FilterParams,
        seed_mu: &[u8; SEED_LEN],
        entries: &[(Vec<u8>, Vec<u8>)],
    ) -> (r: Result<(Server, Vec<u8>, Vec<u8>), SetupError>)
        requires
            params.arity.segmented() ==> setup::params_fit(*params),
        ensures
            !params.arity.segmented() ==> r is Err && r->Err_0 == SetupError::Params(
                crate::params::ParamError::ArityNotSupportedForPir,
            ),
            params.arity.segmented() ==> match setup::filling(*params, seed_mu@, entries@).error {
                Some(e) => r is Err && r->Err_0 == SetupError::CuckooMap(e),
                None => if !setup::databases_fit(*params) {
                    r is Err && r->Err_0 == SetupError::CuckooMap(
                        MapError::Matrix(MatrixError::DimensionOverflow),
                    )
                } else if !setup::matrices_fit(*params) {
                    r is Err && r->Err_0 == SetupError::Matrix(MatrixError::DimensionOverflow)
                } else {
                    &&& r is Ok
                    &&& (r->Ok_0).0.wf()
                    &&& (r->Ok_0).0.synced()
                    &&& (r->Ok_0).0.spec_params() == *params
                    &&& (r->Ok_0).0.spec_seed() == seed_mu@
                    &&& (r->Ok_0).0.spec_map().cells() == setup::filling(
                        *params,
                        seed_mu@,
                        entries@,
                    ).cells
                    &&& (r->Ok_0).0.spec_map().stream_pos() == setup::filling(
                        *params,
                        seed_mu@,
                        entries@,
                    ).pos
                    &&& (r->Ok_0).1@ == serialization::hints_bytes((r->Ok_0).0.hints())
                    &&& (r->Ok_0).2@ == serialization::params_bytes(*params)
                },
            },
    {
        let art: setup::SetupArtifacts = match setup(params, seed_mu, entries) {
            Ok(art) => art,
            Err(e) => {
                return Err(e);
            },
        };
        let hint_bytes: Vec<u8> = batch_hint_to_bytes(art.hints.as_slice());
        let params_bytes: Vec<u8> = params_to_bytes(params);
        let ghost hints0 = art.hints@;
        let ghost databases0 = art.databases@;
        let ghost a0 = art.a_segs@;
        let mut hints: Vec<Matrix> = art.hints;
        let mut databases: Vec<Matrix> = art.databases;
        let mut a_segs: Vec<Matrix> = art.a_segs;
        let map: SegmentedMap = art.map;
        let k: usize = params.degree() as usize;
        let mut segments: Vec<PerSegmentState> = Vec::with_capacity(k);
        let mut j: usize = 0;
        proof {
            assert(hints@ =~= hints0.skip(0));
            assert(databases@ =~= databases0.skip(0));
            assert(a_segs@ =~= a0.skip(0));
        }
        while j < k
            invariant
                j <= k,
                hints0.len() == k,
                databases0.len() == k,
                a0.len() == k,
                hints@ == hints0.skip(j as int),
                databases@ == databases0.skip(j as int),
                a_segs@ == a0.skip(j as int),
                segments@.len() == j,
                forall|i: int|
                    0 <= i < j ==> {
                        &&& (#[trigger] segments@[i]).a == a0[i]
                        &&& segments@[i].d == databases0[i]
                        &&& segments@[i].h == hints0[i]
                    },
            decreases k - j,
        {
            let h: Matrix = hints.remove(0);
            let d: Matrix = databases.remove(0);
            let a: Matrix = a_segs.remove(0);
            segments.push(PerSegmentState { a, d, h });
            j = j + 1;
            proof {
                assert(hints@ =~= hints0.skip(j as int));
                assert(databases@ =~= databases0.skip(j as int));
                assert(a_segs@ =~= a0.skip(j as int));
            }
        }
        let server = Server { params: *params, seed_mu: *seed_mu, segments, map };
        proof {
            let width = params.spec_row_elems_bucket();
            assert forall|i: int| 0 <= i < k implies {
                &&& (#[trigger] server.spec_segments()[i]).shaped(
                    LWE_DIMENSION as int,
                    params.spec_seg() as int,
                    width,
                )
                &&& setup::is_public_matrix(server.spec_segments()[i].a, *params, seed_mu@, i)
                &&& server.spec_segments()[i].in_step()
                &&& server.spec_map().is_matrix(server.spec_segments()[i].d, i)
            } by {
                assert(setup::is_public_matrix(a0[i], *params, seed_mu@, i));
                assert(hints0[i].is_product(a0[i], databases0[i]));
                assert(map.is_matrix(databases0[i], i));
            }
            assert(server.hints() =~= hints0);
        }
        Ok((server, hint_bytes, params_bytes))
    }

    /// The parameters.
    pub fn params(&self) -> (p: &FilterParams)
        ensures
            *p == self.spec_params(),
    {
        &self.params
    }

    /// The public seed.
    pub fn seed_mu(&self) -> (s: &[u8; SEED_LEN])
        ensures
            s@ == self.spec_seed(),
    {
        &self.seed_mu
    }

    /// The public matrix of segment `j`.
    pub fn segment_a(&self, j: usize) -> (m: &Matrix)
        requires
            j < self.spec_segments().len(),
        ensures
            *m == self.spec_segments()[j as int].a,
    {
        &self.segments[j].a
    }

    /// The database of segment `j`.
    pub fn segment_d(&self, j: usize) -> (m: &Matrix)
        requires
            j < self.spec_segments().len(),
        ensures
            *m == self.spec_segments()[j as int].d,
    {
        &self.segments[j].d
    }

    /// The hint of segment `j`.
    pub fn segment_h(&self, j: usize) -> (m: &Matrix)
        requires
            j < self.spec_segments().len(),
        ensures
            *m == self.spec_segments()[j as int].h,
    {
        &self.segments[j].h
    }

    /// The response of every segment: its query times its database.
    pub fn respond(&self, queries: &[Vec<u32>]) -> (r: Result<Vec<Vec<u32>>, MatrixError>)
        requires
            self.wf(),
            queries@.len() == self.spec_segments().len(),
        ensures
            (exists|j: int|
                0 <= j < queries@.len() && (#[trigger] queries@[j])@.len()
                    != self.spec_params().spec_seg()) ==> r == Err::<Vec<Vec<u32>>, MatrixError>(
                MatrixError::ShapeMismatch,
            ),
            (forall|j: int|
                0 <= j < queries@.len() ==> (#[trigger] queries@[j])@.len()
                    == self.spec_params().spec_seg()) ==> {
                &&& r is Ok
                &&& r->Ok_0@.len() == queries@.len()
                &&& forall|j: int|
                    0 <= j < queries@.len() ==> (#[trigger] r->Ok_0@[j])@ == respond::response_row(
                        queries@[j]@,
                        self.spec_segments()[j].d,
                    )
            },
    {
        let n: usize = self.segments.len();
        let mut databases: Vec<&Matrix> = Vec::with_capacity(n);
        let mut j: usize = 0;
        while j < n
            invariant
                j <= n == self.segments@.len(),
                self.wf(),
                databases@.len() == j,
                forall|i: int|
                    0 <= i < j ==> *(#[trigger] databases@[i]) == self.spec_segments()[i].d,
            decreases n - j,
        {
            databases.push(&self.segments[j].d);
            j = j + 1;
        }
        proof {
            assert forall|i: int| 0 <= i < n implies (#[trigger] databases@[i]).wf()
                && databases@[i].spec_rows() == self.spec_params().spec_seg() by {
                assert(self.spec_segments()[i].shaped(
                    LWE_DIMENSION as int,
                    self.spec_params().spec_seg() as int,
                    self.spec_params().spec_row_elems_bucket(),
                ));
            }
        }
        respond(databases.as_slice(), queries)
    }

    /// Overwrites database rows and moves the hints along; the map is not changed. Where one
    /// of the updates is refused, nothing is changed.
    pub fn apply_row_updates(&mut self, updates: &[PerSegmentRow]) -> (r: Result<(), UpdateError>)
        requires
            old(self).wf(),
        ensures
            final(self).wf(),
            final(self).spec_params() == old(self).spec_params(),
            final(self).spec_seed() == old(self).spec_seed(),
            final(self).spec_map() == old(self).spec_map(),
            match update::first_refusal(updates@, old(self).spec_params()) {
                Some(e) => r == Err::<(), UpdateError>(e) && final(self).spec_segments() == old(self).spec_segments(),
                None => {
                    &&& r is Ok
                    &&& forall|j: int|
                        0 <= j < old(self).spec_segments().len() ==> {
                            &&& (#[trigger] final(self).spec_segments()[j]).a == old(self).spec_segments()[j].a
                            &&& final(self).spec_segments()[j].d.spec_elems() == update::written(
                                old(self).spec_segments()[j].d.spec_elems(),
                                old(self).spec_params().spec_row_elems_bucket(),
                                j,
                                updates@,
                            )
                        }
                },
            },
    {
        let ghost s0 = self.segments@;
        proof {
            row::lemma_slot_elems(self.params, self.map.spec_b() as int);
            assert(s0[0].shaped(
                LWE_DIMENSION as int,
                self.params.spec_seg() as int,
                self.params.spec_row_elems_bucket(),
            ));
        }
        let r: Result<(), UpdateError> = apply(self.segments.as_mut_slice(), &self.params, updates);
        proof {
            assert forall|j: int| 0 <= j < self.segments@.len() implies {
                &&& setup::is_public_matrix(
                    (#[trigger] self.spec_segments()[j]).a,
                    self.spec_params(),
                    self.spec_seed(),
                    j,
                )
                &&& self.spec_segments()[j].in_step()
            } by {
                assert(s0[j].in_step());
                assert(setup::is_public_matrix(s0[j].a, self.params, self.seed_mu@, j));
            }
        }
        r
    }

    /// Writes the rows of a batch into the databases.
    fn commit(&mut self, Ghost(before): Ghost<SegmentedMap>, Ghost(buckets): Ghost<Seq<u32>>, batch: &UpdateBatch)
        requires
            old(self).wf(),
            setup::is_map(before, old(self).spec_params(), old(self).spec_seed()),
            cuckoo_store::are_rows(
                batch.rows@,
                old(self).spec_params(),
                old(self).spec_map().spec_b() as int,
                old(self).spec_map().cells(),
                buckets,
            ),
            forall|i: int|
                0 <= i < buckets.len() ==> (#[trigger] buckets[i])
                    < old(self).spec_params().arity.spec_degree() * old(self).spec_params().spec_seg(),
            model::others_same(
                before.cells(),
                old(self).spec_map().cells(),
                before.spec_b() as int,
                old(self).spec_params().arity.spec_degree() * old(self).spec_params().spec_seg(),
                buckets,
            ),
        ensures
            final(self).wf(),
            final(self).spec_params() == old(self).spec_params(),
            final(self).spec_seed() == old(self).spec_seed(),
            final(self).spec_map() == old(self).spec_map(),
            forall|j: int|
                0 <= j < old(self).spec_segments().len() ==> {
                    &&& before.is_matrix(old(self).spec_segments()[j].d, j)
                        ==> old(self).spec_map().is_matrix(
                        (#[trigger] final(self).spec_segments()[j]).d,
                        j,
                    )
                    &&& final(self).spec_segments()[j].a == old(self).spec_segments()[j].a
                    &&& final(self).spec_segments()[j].d.spec_elems() == update::written(
                        old(self).spec_segments()[j].d.spec_elems(),
                        old(self).spec_params().spec_row_elems_bucket(),
                        j,
                        batch.rows@,
                    )
                },
    {
        let ghost s0 = self.segments@;
        let ghost map = self.map;
        let ghost seed = self.seed_mu@;
        proof {
            lemma_rows_good(map, seed, batch.rows@, buckets);
        }
        let _ = self.apply_row_updates(batch.rows.as_slice());
        proof {
            let params = self.params;
            assert forall|j: int|
                0 <= j < s0.len() && before.is_matrix(s0[j].d, j) implies map.is_matrix(
                (#[trigger] self.spec_segments()[j]).d,
                j,
            ) by {
                assert(self.spec_segments()[j].shaped(
                    LWE_DIMENSION as int,
                    params.spec_seg() as int,
                    params.spec_row_elems_bucket(),
                ));
                assert(s0[j].shaped(
                    LWE_DIMENSION as int,
                    params.spec_seg() as int,
                    params.spec_row_elems_bucket(),
                ));
                lemma_rows_sync(
                    before,
                    map,
                    seed,
                    batch.rows@,
                    buckets,
                    s0[j].d,
                    self.spec_segments()[j].d,
                    j,
                );
            }
        }
    }
}

impl Server {
    /// What the operations on the map keep, and what they do to the databases: the rows that
    /// the map hands out are written, or nothing is where it hands out an error.
    pub open spec fn follows(self, before: Server, r: Result<UpdateBatch, MapError>) -> bool {
        &&& self.wf()
        &&& self.spec_params() == before.spec_params()
        &&& self.spec_seed() == before.spec_seed()
        &&& before.synced() ==> self.synced()
        &&& match r {
            Ok(batch) => forall|j: int|
                0 <= j < before.spec_segments().len() ==> {
                    &&& (#[trigger] self.spec_segments()[j]).a == before.spec_segments()[j].a
                    &&& self.spec_segments()[j].d.spec_elems() == update::written(
                        before.spec_segments()[j].d.spec_elems(),
                        before.spec_params().spec_row_elems_bucket(),
                        j,
                        batch.rows@,
                    )
                },
            Err(_) => self.spec_segments() == before.spec_segments(),
        }
    }

    /// Inserts a pair into the map and brings databases and hints up to date; where the map
    /// refuses it, nothing is changed.
    pub fn insert(&mut self, key: &[u8], value: &[u8]) -> (r: Result<UpdateBatch, MapError>)
        requires
            old(self).wf(),
        ensures
            final(self).follows(*old(self), r),
            final(self).spec_map().cells() == old(self).spec_map().insertion(key@, value@).cells,
            final(self).spec_map().stream_pos() == old(self).spec_map().insertion(
                key@,
                value@,
            ).pos,
            match old(self).spec_map().insertion(key@, value@).error {
                Some(e) => r == Err::<UpdateBatch, MapError>(e),
                None => r is Ok && cuckoo_store::are_rows(
                    r->Ok_0.rows@,
                    old(self).spec_params(),
                    old(self).spec_map().spec_b() as int,
                    final(self).spec_map().cells(),
                    model::last_touches(
                        old(self).spec_map().insertion(key@, value@).touched,
                        old(self).spec_map().insertion(key@, value@).touched.len() as int,
                    ),
                ),
            },
    {
        let ghost before = self.map;
        let ghost s0 = *self;
        let ghost out = before.insertion(key@, value@);
        let ghost kept = model::last_touches(out.touched, out.touched.len() as int);
        let r: Result<UpdateBatch, MapError> = self.map.insert(key, value);
        proof {
            model::law_insertion_touched(
                before.spec_scheme(),
                before.spec_b() as int,
                self.params.fingerprint_bits,
                self.params.value_len,
                before.spec_max_kicks(),
                before.stream_seed(),
                before.stream_pos(),
                before.cells(),
                key@,
                value@,
            );
            lemma_kept(
                before,
                self.map,
                (before.spec_scheme().degree * before.spec_scheme().segment_size) as int,
                out.touched,
            );
            model::law_insertion_contents(
                before.spec_scheme(),
                before.spec_b() as int,
                self.params.fingerprint_bits,
                self.params.value_len,
                before.spec_max_kicks(),
                before.stream_seed(),
                before.stream_pos(),
                before.cells(),
                key@,
                value@,
            );
        }
        match r {
            Ok(batch) => {
                self.commit(Ghost(before), Ghost(kept), &batch);
                Ok(batch)
            },
            Err(e) => {
                proof {
                    lemma_same_map(s0, *self);
                }
                Err(e)
            },
        }
    }

    /// Replaces the value of a key and brings databases and hints up to date; where the map
    /// refuses it, nothing is changed.
    pub fn update_value(&mut self, key: &[u8], new_value: &[u8]) -> (r: Result<
        UpdateBatch,
        MapError,
    >)
        requires
            old(self).wf(),
        ensures
            final(self).follows(*old(self), r),
            final(self).spec_map().stream_pos() == old(self).spec_map().stream_pos(),
            new_value@.len() != old(self).spec_params().value_len ==> r == Err::<
                UpdateBatch,
                MapError,
            >(MapError::ValueLength) && final(self).spec_map().cells() == old(self).spec_map().cells(),
            new_value@.len() == old(self).spec_params().value_len ==> match old(self).spec_map().place_of(key@) {
                Some(y) => {
                    &&& r is Ok
                    &&& final(self).spec_map().cells() == old(self).spec_map().cells().update(
                        y,
                        Some((old(self).spec_map().tag_of(key@), new_value@)),
                    )
                    &&& cuckoo_store::are_rows(
                        r->Ok_0.rows@,
                        old(self).spec_params(),
                        old(self).spec_map().spec_b() as int,
                        final(self).spec_map().cells(),
                        seq![(y / old(self).spec_map().spec_b() as int) as u32],
                    )
                },
                None => r == Err::<UpdateBatch, MapError>(MapError::NotFound) && final(self).spec_map().cells() == old(self).spec_map().cells(),
            },
    {
        let ghost before = self.map;
        let ghost s0 = *self;
        let r: Result<UpdateBatch, MapError> = self.map.update_value(key, new_value);
        match r {
            Ok(batch) => {
                let ghost y = before.place_of(key@)->0;
                let ghost buckets = seq![(y / before.spec_b() as int) as u32];
                proof {
                    lemma_found_bucket(before, self.map, key@, y);
                }
                self.commit(Ghost(before), Ghost(buckets), &batch);
                Ok(batch)
            },
            Err(e) => {
                proof {
                    lemma_same_map(s0, *self);
                }
                Err(e)
            },
        }
    }

    /// Deletes a key from the map and brings databases and hints up to date; where the map
    /// does not hold it, nothing is changed.
    pub fn delete(&mut self, key: &[u8]) -> (r: Result<UpdateBatch, MapError>)
        requires
            old(self).wf(),
        ensures
            final(self).follows(*old(self), r),
            final(self).spec_map().stream_pos() == old(self).spec_map().stream_pos(),
            match old(self).spec_map().place_of(key@) {
                Some(y) => {
                    &&& r is Ok
                    &&& final(self).spec_map().cells() == old(self).spec_map().cells().update(
                        y,
                        None,
                    )
                    &&& cuckoo_store::are_rows(
                        r->Ok_0.rows@,
                        old(self).spec_params(),
                        old(self).spec_map().spec_b() as int,
                        final(self).spec_map().cells(),
                        seq![(y / old(self).spec_map().spec_b() as int) as u32],
                    )
                },
                None => r == Err::<UpdateBatch, MapError>(MapError::NotFound) && final(self).spec_map().cells() == old(self).spec_map().cells(),
            },
    {
        let ghost before = self.map;
        let ghost s0 = *self;
        let r: Result<UpdateBatch, MapError> = self.map.delete(key);
        match r {
            Ok(batch) => {
                let ghost y = before.place_of(key@)->0;
                let ghost buckets = seq![(y / before.spec_b() as int) as u32];
                proof {
                    lemma_found_bucket(before, self.map, key@, y);
                }
                self.commit(Ghost(before), Ghost(buckets), &batch);
                Ok(batch)
            },
            Err(e) => {
                proof {
                    lemma_same_map(s0, *self);
                }
                Err(e)
            },
        }
    }
}

/// Where the slots are the same, the databases are still those of the map.
proof fn lemma_same_map(before: Server, after: Server)
    requires
        before.wf(),
        after.wf(),
        after.spec_params() == before.spec_params(),
        after.spec_segments() == before.spec_segments(),
        after.spec_map().cells() == before.spec_map().cells(),
    ensures
        before.synced() ==> after.synced(),
{
    if before.synced() {
        assert forall|j: int|
            0 <= j < after.spec_segments().len() implies after.spec_map().is_matrix(
            (#[trigger] after.spec_segments()[j]).d,
            j,
        ) by {
            assert(before.spec_map().is_matrix(before.spec_segments()[j].d, j));
        }
    }
}

/// Writing the slot in which a key was found changes its bucket only.
proof fn lemma_found_bucket(before: SegmentedMap, after: SegmentedMap, key: Seq<u8>, y: int)
    requires
        setup::is_map(before, before.spec_params(), before.stream_seed()),
        before.place_of(key) == Some(y),
        exists|cell: model::Cell| after.cells() == #[trigger] before.cells().update(y, cell),
    ensures
        ({
            let buckets = seq![(y / before.spec_b() as int) as u32];
            let n = before.spec_params().arity.spec_degree() * before.spec_params().spec_seg();
            &&& forall|i: int| 0 <= i < buckets.len() ==> (#[trigger] buckets[i]) < n
            &&& model::others_same(
                before.cells(),
                after.cells(),
                before.spec_b() as int,
                n as int,
                buckets,
            )
        }),
{
    let b = before.spec_b() as int;
    let sch = before.spec_scheme();
    let key_buckets = before.buckets_of(key);
    let cell = choose|cell: model::Cell|
        after.cells() == #[trigger] before.cells().update(y, cell);
    let buckets = seq![(y / b) as u32];
    let n = before.spec_params().arity.spec_degree() * before.spec_params().spec_seg();
    model::lemma_candidates(sch, key, before.spec_params().fingerprint_bits);
    model::lemma_first_found(sch, before.cells(), b, key_buckets, before.tag_of(key), 0);
    let i = choose|i: int| 0 <= i < key_buckets.len() && (#[trigger] key_buckets[i]) == y / b;
    assert(key_buckets[i] == buckets[0]);
    assert(buckets.contains(buckets[0]));
    assert forall|g: u32| g < n && !(#[trigger] buckets.contains(g)) implies model::same_bucket(
        before.cells(),
        after.cells(),
        b,
        g as int,
    ) by {
        model::lemma_update_bucket(sch, b, before.cells(), y, cell, g);
    }
}

// ---------------------------------------------------------------- laws
/// Row `r` holds the pair in slot `s`: its elements give the fingerprint and the value.
pub open spec fn row_holds(
    params: FilterParams,
    r: Seq<u32>,
    s: int,
    tag: u32,
    value: Seq<u8>,
) -> bool {
    let n = row::slot_elems(params);
    let f = params.spec_fp_elems();
    let fp = r.subrange(s * n, s * n + f);
    let val = r.subrange(s * n + f, s * n + n);
    &&& fingerprint::digits_value(fp, params.mat_elem_bit_len as nat) % fingerprint::fp_modulus(
        params.fingerprint_bits,
    ) == tag
    &&& val == lwe::packed(value, params)
    &&& forall|out: Seq<u8>| #[trigger] lwe::is_unpacked(val, params, out) ==> out == value
}

/// A pair that the map holds can be read from the databases: the row of one of the key's
/// candidate buckets, in that bucket's segment, holds its fingerprint and its value.
pub proof fn law_held_pair_is_in_database(server: Server, key: Seq<u8>, value: Seq<u8>)
    requires
        server.wf(),
        server.synced(),
        model::has_pair(
            server.spec_map().cells(),
            server.spec_map().spec_b() as int,
            server.spec_map().buckets_of(key),
            server.spec_map().tag_of(key),
            value,
        ),
    ensures
        exists|j: int, s: int|
            0 <= j < server.spec_segments().len() && 0 <= s < server.spec_map().spec_b()
                && #[trigger] row_holds(
                server.spec_params(),
                server.spec_segments()[j].d.spec_row(
                    server.spec_map().buckets_of(key)[j] as int
                        % server.spec_params().spec_seg() as int,
                ),
                s,
                server.spec_map().tag_of(key),
                value,
            ),
{
    let map = server.spec_map();
    let params = server.spec_params();
    let b = map.spec_b() as int;
    let cells = map.cells();
    let buckets = map.buckets_of(key);
    let tag = map.tag_of(key);
    let seg = params.spec_seg() as int;
    let (j, s) = choose|j: int, s: int|
        0 <= j < buckets.len() && 0 <= s < b && #[trigger] cells[buckets[j] * b + s] == Some(
            (tag, value),
        );
    let sch = map.spec_scheme();
    model::lemma_candidates(sch, key, params.fingerprint_bits);
    let g = buckets[j] as int;
    lemma_bucket_place(g, params.arity.spec_degree() as int, seg);
    model::lemma_slot(sch, b, cells, g, s);
    assert(cells[g * b + s] == Some((tag, value)));
    assert(map.is_matrix(server.spec_segments()[j].d, j));
    let l = g % seg;
    let r = server.spec_segments()[j].d.spec_row(l);
    assert(r == row::bucket_row(params, b, cells, j * seg + l));
    row::law_row_holds_pair(params, b, cells, g, s, tag, value);
    assert(row_holds(params, r, s, tag, value));
}

} // verus!
