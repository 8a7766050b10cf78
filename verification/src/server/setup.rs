//! Setup of a server: the cuckoo map, the database matrices of its segments, the public
//! matrices and the hints.
use vstd::prelude::*;

use crate::backend::prg;
use crate::cuckoo_store;
use crate::cuckoo_store::model;
use crate::cuckoo_store::{MapError, SegmentedCuckooMap, DEFAULT_MAX_KICKS};
use crate::hash;
use crate::hash::{derive_segment_seeds, SegmentedScheme};
use crate::matrix::{Matrix, MatrixError};
use crate::params::{
    FilterParams,
    ParamError,
    DEFAULT_SLOTS_PER_BUCKET,
    LWE_DIMENSION,
    SEED_LEN,
};
use crate::text;

verus! {

/// Why a server cannot be set up.
#[derive(Debug, Clone, Copy, PartialEq, Eq, Structural)]
pub enum SetupError {
    /// The parameters are not supported.
    Params(ParamError),
    /// The map could not be filled.
    CuckooMap(MapError),
    /// A matrix could not be built.
    Matrix(MatrixError),
}

impl SetupError {
    /// The text of the error.
    pub open spec fn text(self) -> Seq<char> {
        match self {
            SetupError::Params(e) => "parameter error: "@ + e.text(),
            SetupError::CuckooMap(e) => "cuckoo map error: "@ + e.text(),
            SetupError::Matrix(e) => "matrix error: "@ + e.text(),
        }
    }

    /// The text of the error.
    pub fn message(&self) -> (s: String)
        ensures
            s@ == self.text(),
    {
        match self {
            SetupError::Params(e) => text::join("parameter error: ", e.message()),
            SetupError::CuckooMap(e) => text::join("cuckoo map error: ", e.message().as_str()),
            SetupError::Matrix(e) => text::join("matrix error: ", e.message()),
        }
    }
}

impl From<ParamError> for SetupError {
    fn from(e: ParamError) -> (r: Self) {
        SetupError::Params(e)
    }
}

impl vstd::std_specs::convert::FromSpecImpl<ParamError> for SetupError {
    open spec fn obeys_from_spec() -> bool {
        true
    }

    open spec fn from_spec(e: ParamError) -> Self {
        SetupError::Params(e)
    }
}

impl From<MapError> for SetupError {
    fn from(e: MapError) -> (r: Self) {
        SetupError::CuckooMap(e)
    }
}

impl vstd::std_specs::convert::FromSpecImpl<MapError> for SetupError {
    open spec fn obeys_from_spec() -> bool {
        true
    }

    open spec fn from_spec(e: MapError) -> Self {
        SetupError::CuckooMap(e)
    }
}

impl From<MatrixError> for SetupError {
    fn from(e: MatrixError) -> (r: Self) {
        SetupError::Matrix(e)
    }
}

impl vstd::std_specs::convert::FromSpecImpl<MatrixError> for SetupError {
    open spec fn obeys_from_spec() -> bool {
        true
    }

    open spec fn from_spec(e: MatrixError) -> Self {
        SetupError::Matrix(e)
    }
}

/// The map of a server.
pub type SegmentedMap = SegmentedCuckooMap<SegmentedScheme>;

/// What a setup gives.
pub struct SetupArtifacts {
    /// The public seed.
    pub seed_mu: [u8; SEED_LEN],
    /// The hints, one per segment.
    pub hints: Vec<Matrix>,
    /// The databases, one per segment.
    pub databases: Vec<Matrix>,
    /// The public matrices, one per segment.
    pub a_segs: Vec<Matrix>,
    /// The map.
    pub map: SegmentedMap,
    /// The parameters.
    pub params: FilterParams,
}

/// The index scheme of the parameters.
pub open spec fn scheme_of(params: FilterParams) -> SegmentedScheme {
    SegmentedScheme { degree: params.arity.spec_degree(), segment_size: params.spec_seg() }
}

/// Whether a server's map can be built with the parameters.
pub open spec fn params_fit(params: FilterParams) -> bool {
    cuckoo_store::setup_ok(scheme_of(params), params, DEFAULT_SLOTS_PER_BUCKET)
}

/// The slots of an empty map.
pub open spec fn empty_cells(params: FilterParams) -> Seq<model::Cell> {
    Seq::new(
        (params.arity.spec_degree() * params.spec_seg() * DEFAULT_SLOTS_PER_BUCKET) as nat,
        |x: int| None,
    )
}

/// What inserting the entries into an empty map comes to, one after the other, up to the
/// first that fails.
pub open spec fn filling(
    params: FilterParams,
    seed: Seq<u8>,
    entries: Seq<(Vec<u8>, Vec<u8>)>,
) -> model::Outcome
    decreases entries.len(),
{
    if entries.len() == 0 {
        model::Outcome {
            error: None,
            cells: empty_cells(params),
            touched: Seq::empty(),
            pos: 0,
        }
    } else {
        let before = filling(params, seed, entries.drop_last());
        if before.error is Some {
            before
        } else {
            model::insertion(
                scheme_of(params),
                DEFAULT_SLOTS_PER_BUCKET as int,
                params.fingerprint_bits,
                params.value_len,
                DEFAULT_MAX_KICKS,
                seed,
                before.pos,
                before.cells,
                entries.last().0@,
                entries.last().1@,
            )
        }
    }
}

/// Entries after the first that fails do not matter.
proof fn lemma_filling_fails(
    params: FilterParams,
    seed: Seq<u8>,
    entries: Seq<(Vec<u8>, Vec<u8>)>,
    n: int,
)
    requires
        0 <= n <= entries.len(),
        filling(params, seed, entries.take(n)).error is Some,
    ensures
        filling(params, seed, entries) == filling(params, seed, entries.take(n)),
    decreases entries.len(),
{
    if n == entries.len() {
        assert(entries.take(n) =~= entries);
    } else {
        let init = entries.drop_last();
        assert(init.take(n) =~= entries.take(n));
        lemma_filling_fails(params, seed, init, n);
    }
}

/// `map` is a map for the parameters, seeded by `seed`.
pub open spec fn is_map(map: SegmentedMap, params: FilterParams, seed: Seq<u8>) -> bool {
    &&& map.wf()
    &&& map.spec_scheme() == scheme_of(params)
    &&& map.spec_params() == params
    &&& map.spec_b() == DEFAULT_SLOTS_PER_BUCKET
    &&& map.spec_max_kicks() == DEFAULT_MAX_KICKS
    &&& map.stream_seed() == seed
}

/// An empty map for the parameters.
fn build_map(params: &FilterParams, rng_seed: [u8; 32]) -> (r: Result<SegmentedMap, SetupError>)
    requires
        params.arity.segmented() ==> params_fit(*params),
    ensures
        !params.arity.segmented() ==> r == Err::<SegmentedMap, SetupError>(
            SetupError::Params(ParamError::ArityNotSupportedForPir),
        ),
        params.arity.segmented() ==> {
            &&& r is Ok
            &&& is_map(r->Ok_0, *params, rng_seed@)
            &&& r->Ok_0.cells() == empty_cells(*params)
            &&& r->Ok_0.stream_pos() == 0
        },
{
    if !params.arity.is_segmented() {
        return Err(SetupError::Params(ParamError::ArityNotSupportedForPir));
    }
    let scheme: SegmentedScheme = SegmentedScheme {
        degree: params.degree(),
        segment_size: params.seg(),
    };
    match SegmentedCuckooMap::new(
        scheme,
        *params,
        params.slots_per_bucket(),
        DEFAULT_MAX_KICKS,
        rng_seed,
    ) {
        Ok(map) => {
            proof {
                assert(map.cells() =~= empty_cells(*params));
            }
            Ok(map)
        },
        Err(e) => Err(SetupError::CuckooMap(e)),
    }
}

/// Inserts the entries, one after the other.
fn fill(map: &mut SegmentedMap, entries: &[(Vec<u8>, Vec<u8>)]) -> (r: Result<(), SetupError>)
    requires
        is_map(*old(map), old(map).spec_params(), old(map).stream_seed()),
        old(map).cells() == empty_cells(old(map).spec_params()),
        old(map).stream_pos() == 0,
    ensures
        is_map(*final(map), old(map).spec_params(), old(map).stream_seed()),
        match filling(old(map).spec_params(), old(map).stream_seed(), entries@).error {
            Some(e) => r == Err::<(), SetupError>(SetupError::CuckooMap(e)),
            None => {
                let out = filling(old(map).spec_params(), old(map).stream_seed(), entries@);
                &&& r is Ok
                &&& final(map).cells() == out.cells
                &&& final(map).stream_pos() == out.pos
            },
        },
{
    let ghost params = map.spec_params();
    let ghost seed = map.stream_seed();
    let n: usize = entries.len();
    let mut i: usize = 0;
    proof {
        assert(entries@.take(0) =~= Seq::empty());
    }
    while i < n
        invariant
            i <= n == entries@.len(),
            params == old(map).spec_params(),
            seed == old(map).stream_seed(),
            is_map(*map, params, seed),
            filling(params, seed, entries@.take(i as int)).error is None,
            map.cells() == filling(params, seed, entries@.take(i as int)).cells,
            map.stream_pos() == filling(params, seed, entries@.take(i as int)).pos,
        decreases n - i,
    {
        proof {
            assert(entries@.take(i + 1).drop_last() =~= entries@.take(i as int));
            assert(entries@.take(i + 1).last() == entries@[i as int]);
        }
        match map.insert(entries[i].0.as_slice(), entries[i].1.as_slice()) {
            Ok(_) => {},
            Err(e) => {
                proof {
                    lemma_filling_fails(params, seed, entries@, i + 1);
                }
                return Err(SetupError::CuckooMap(e));
            },
        }
        i = i + 1;
    }
    proof {
        assert(entries@.take(n as int) =~= entries@);
    }
    Ok(())
}

/// The public matrix of segment `j`.
pub open spec fn is_public_matrix(a: Matrix, params: FilterParams, seed: Seq<u8>, j: int) -> bool {
    &&& a.wf()
    &&& a.spec_rows() == LWE_DIMENSION
    &&& a.spec_cols() == params.spec_seg()
    &&& a.spec_elems() == prg::keystream(
        hash::derived_seed(seed, j),
        0,
        (LWE_DIMENSION * params.spec_seg()) as nat,
    )
}

/// Whether the databases can be laid out in memory.
pub open spec fn databases_fit(params: FilterParams) -> bool {
    params.spec_seg() * params.spec_row_elems_bucket() <= usize::MAX
}

/// Whether the public matrices and the hints can be laid out in memory.
pub open spec fn matrices_fit(params: FilterParams) -> bool {
    &&& LWE_DIMENSION * params.spec_seg() <= usize::MAX
    &&& LWE_DIMENSION * params.spec_row_elems_bucket() <= usize::MAX
}

/// The artifacts of the parameters, the seed and the entries.
pub open spec fn is_setup(
    art: SetupArtifacts,
    params: FilterParams,
    seed: Seq<u8>,
    entries: Seq<(Vec<u8>, Vec<u8>)>,
) -> bool {
    let k = params.arity.spec_degree() as int;
    &&& art.seed_mu@ == seed
    &&& art.params == params
    &&& is_map(art.map, params, seed)
    &&& art.map.cells() == filling(params, seed, entries).cells
    &&& art.map.stream_pos() == filling(params, seed, entries).pos
    &&& art.map.are_matrices(art.databases@)
    &&& art.a_segs@.len() == k
    &&& art.hints@.len() == k
    &&& forall|j: int|
        0 <= j < k ==> is_public_matrix(#[trigger] art.a_segs@[j], params, seed, j)
    &&& forall|j: int|
        0 <= j < k ==> (#[trigger] art.hints@[j]).is_product(art.a_segs@[j], art.databases@[j])
}

/// Sets a server up: inserts the entries into an empty map, lays the segments out as
/// databases, expands the public matrices from seeds that are derived from `seed_mu`, and
/// computes the hints.
pub fn setup(
    params: &FilterParams,
    seed_mu: &[u8; SEED_LEN],
    entries: &[(Vec<u8>, Vec<u8>)],
) -> (r: Result<SetupArtifacts, SetupError>)
    requires
        params.arity.segmented() ==> params_fit(*params),
    ensures
        !params.arity.segmented() ==> r == Err::<SetupArtifacts, SetupError>(
            SetupError::Params(ParamError::ArityNotSupportedForPir),
        ),
        params.arity.segmented() ==> match filling(*params, seed_mu@, entries@).error {
            Some(e) => r == Err::<SetupArtifacts, SetupError>(SetupError::CuckooMap(e)),
            None => if !databases_fit(*params) {
                r == Err::<SetupArtifacts, SetupError>(
                    SetupError::CuckooMap(MapError::Matrix(MatrixError::DimensionOverflow)),
                )
            } else if !matrices_fit(*params) {
                r == Err::<SetupArtifacts, SetupError>(
                    SetupError::Matrix(MatrixError::DimensionOverflow),
                )
            } else {
                r is Ok && is_setup(r->Ok_0, *params, seed_mu@, entries@)
            },
        },
{
    let mut map: SegmentedMap = match build_map(params, *seed_mu) {
        Ok(map) => map,
        Err(e) => {
            return Err(e);
        },
    };
    match fill(&mut map, entries) {
        Ok(_) => {},
        Err(e) => {
            return Err(e);
        },
    }
    let databases: Vec<Matrix> = match map.to_matrices() {
        Ok(databases) => databases,
        Err(e) => {
            return Err(SetupError::CuckooMap(e));
        },
    };
    let k: usize = params.degree() as usize;
    let seeds: Vec<[u8; SEED_LEN]> = derive_segment_seeds(seed_mu, params.degree());
    let seg: u32 = params.seg();
    let mut a_segs: Vec<Matrix> = Vec::with_capacity(k);
    let mut hints: Vec<Matrix> = Vec::with_capacity(k);
    let mut j: usize = 0;
    while j < k
        invariant
            j <= k == params.arity.spec_degree(),
            seg == params.spec_seg(),
            seeds@.len() == k,
            forall|i: int|
                0 <= i < k ==> (#[trigger] seeds@[i])@ == hash::derived_seed(seed_mu@, i),
            map.are_matrices(databases@),
            is_map(map, *params, seed_mu@),
            a_segs@.len() == j,
            hints@.len() == j,
            j > 0 ==> matrices_fit(*params),
            databases_fit(*params),
            filling(*params, seed_mu@, entries@).error is None,
            params.arity.segmented(),
            forall|i: int|
                0 <= i < j ==> is_public_matrix(#[trigger] a_segs@[i], *params, seed_mu@, i),
            forall|i: int|
                0 <= i < j ==> (#[trigger] hints@[i]).is_product(a_segs@[i], databases@[i]),
        decreases k - j,
    {
        proof {
            assert(map.is_matrix(databases@[j as int], j as int));
        }
        let a: Matrix = match Matrix::from_seed(LWE_DIMENSION as u32, seg, &seeds[j]) {
            Ok(a) => a,
            Err(e) => {
                return Err(SetupError::Matrix(e));
            },
        };
        let h: Matrix = match a.mul(&databases[j]) {
            Ok(h) => h,
            Err(e) => {
                return Err(SetupError::Matrix(e));
            },
        };
        a_segs.push(a);
        hints.push(h);
        j = j + 1;
    }
    Ok(SetupArtifacts { seed_mu: *seed_mu, hints, databases, a_segs, map, params: *params })
}

// ---------------------------------------------------------------- laws
/// The item that an entry becomes.
pub open spec fn entry_item(params: FilterParams, key: Seq<u8>, value: Seq<u8>) -> model::Item {
    (
        model::candidates(scheme_of(params), key, params.fingerprint_bits),
        hash::tag(key, params.fingerprint_bits),
        value,
    )
}

/// After a setup every entry is held, in one of its candidate buckets.
pub proof fn law_entries_are_held(
    params: FilterParams,
    seed: Seq<u8>,
    entries: Seq<(Vec<u8>, Vec<u8>)>,
    i: int,
)
    requires
        params_fit(params),
        filling(params, seed, entries).error is None,
        0 <= i < entries.len(),
    ensures
        model::has_pair(
            filling(params, seed, entries).cells,
            DEFAULT_SLOTS_PER_BUCKET as int,
            model::candidates(scheme_of(params), entries[i].0@, params.fingerprint_bits),
            hash::tag(entries[i].0@, params.fingerprint_bits),
            entries[i].1@,
        ),
{
    lemma_entries_held(params, seed, entries);
    let item = entry_item(params, entries[i].0@, entries[i].1@);
    model::lemma_item_found(
        scheme_of(params),
        DEFAULT_SLOTS_PER_BUCKET as int,
        filling(params, seed, entries).cells,
        item.0,
        item.1,
        item.2,
    );
}

proof fn lemma_entries_held(
    params: FilterParams,
    seed: Seq<u8>,
    entries: Seq<(Vec<u8>, Vec<u8>)>,
)
    requires
        params_fit(params),
        filling(params, seed, entries).error is None,
    ensures
        model::shaped(
            scheme_of(params),
            DEFAULT_SLOTS_PER_BUCKET as int,
            filling(params, seed, entries).cells,
        ),
        forall|i: int|
            0 <= i < entries.len() ==> model::contents(
                scheme_of(params),
                DEFAULT_SLOTS_PER_BUCKET as int,
                filling(params, seed, entries).cells,
            ).count(Some(entry_item(params, (#[trigger] entries[i]).0@, entries[i].1@))) > 0,
    decreases entries.len(),
{
    if entries.len() > 0 {
        let init = entries.drop_last();
        let sch = scheme_of(params);
        let b = DEFAULT_SLOTS_PER_BUCKET as int;
        let before = filling(params, seed, init);
        lemma_entries_held(params, seed, init);
        model::law_insertion_contents(
            sch,
            b,
            params.fingerprint_bits,
            params.value_len,
            DEFAULT_MAX_KICKS,
            seed,
            before.pos,
            before.cells,
            entries.last().0@,
            entries.last().1@,
        );
        assert forall|i: int| 0 <= i < entries.len() implies model::contents(
            sch,
            b,
            filling(params, seed, entries).cells,
        ).count(Some(entry_item(params, (#[trigger] entries[i]).0@, entries[i].1@))) > 0 by {
            if i < init.len() {
                assert(init[i] == entries[i]);
            }
        }
    }
}

/// Recommended parameters fit, where their rows and slots can be counted.
pub proof fn law_recommended_fit(arity: crate::params::Arity, num_items: u32, value_len: u32)
    ensures
        crate::params::recommendation(arity, num_items, value_len) matches Ok(p) ==> {
            p.spec_row_elems_bucket() <= u32::MAX && p.num_buckets * DEFAULT_SLOTS_PER_BUCKET
                <= usize::MAX ==> params_fit(p)
        },
{
    crate::params::law_recommended_sizes(arity, num_items, value_len);
    if let Ok(p) = crate::params::recommendation(arity, num_items, value_len) {
        let k = choose|k: nat| p.spec_seg() == #[trigger] vstd::arithmetic::power2::pow2(k);
        vstd::arithmetic::power2::lemma_pow2_pos(k);
    }
}

} // verus!
