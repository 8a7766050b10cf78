//! Segmented cuckoo map from keywords to values.
//!
//! Every pair lies in exactly one of its candidate buckets, one of which there is in each
//! segment. A bucket's row holds, slot by slot, the fingerprint's chunks and the value's
//! elements; an empty slot is all zero.
pub mod insertion_laws;
pub mod map_laws;
pub mod model;
pub mod row;

use vstd::prelude::*;

use crate::backend::prg::{Keystream, WordSource};
use crate::cuckoo_store::model::Cell;
use crate::fingerprint::encode_fp_into;
use crate::geometry;
use crate::hash::IndexScheme;
use crate::lwe;
use crate::lwe::encode_value;
use crate::matrix::{Matrix, MatrixError};
use crate::params::FilterParams;
use crate::text;

verus! {

/// Kicks after which an insertion gives up.
pub const DEFAULT_MAX_KICKS: u32 = 500;

/// The row of a bucket after an operation.
#[derive(Debug, PartialEq, Eq)]
pub struct PerSegmentRow {
    /// Segment of the bucket.
    pub segment_idx: u8,
    /// Place of the bucket in its segment.
    pub row_local_idx: u32,
    /// The whole row.
    pub new_payload: Vec<u32>,
}

impl Clone for PerSegmentRow {
    fn clone(&self) -> (r: Self)
        ensures
            r.segment_idx == self.segment_idx,
            r.row_local_idx == self.row_local_idx,
            r.new_payload@ == self.new_payload@,
    {
        PerSegmentRow {
            segment_idx: self.segment_idx,
            row_local_idx: self.row_local_idx,
            new_payload: vstd::slice::slice_to_vec(self.new_payload.as_slice()),
        }
    }
}

/// The rows that an operation touched, each of them once.
#[derive(Debug, PartialEq, Eq, Default)]
pub struct UpdateBatch {
    /// The rows, in the order in which their buckets were touched last.
    pub rows: Vec<PerSegmentRow>,
}

/// Whether two rows have the same bucket and the same elements.
pub open spec fn same_row(r: PerSegmentRow, s: PerSegmentRow) -> bool {
    &&& r.segment_idx == s.segment_idx
    &&& r.row_local_idx == s.row_local_idx
    &&& r.new_payload@ == s.new_payload@
}

impl Clone for UpdateBatch {
    fn clone(&self) -> (r: Self)
        ensures
            r.rows@.len() == self.rows@.len(),
            forall|i: int|
                0 <= i < r.rows@.len() ==> same_row(#[trigger] r.rows@[i], self.rows@[i]),
    {
        let mut rows: Vec<PerSegmentRow> = Vec::with_capacity(self.rows.len());
        let mut i: usize = 0;
        while i < self.rows.len()
            invariant
                i <= self.rows@.len(),
                rows@.len() == i,
                forall|k: int| 0 <= k < i ==> same_row(#[trigger] rows@[k], self.rows@[k]),
            decreases self.rows@.len() - i,
        {
            let row: PerSegmentRow = self.rows[i].clone();
            rows.push(row);
            i = i + 1;
        }
        UpdateBatch { rows }
    }
}

/// Why an operation of the map fails.
#[derive(Debug, Clone, Copy, PartialEq, Eq, Structural)]
pub enum MapError {
    /// The value does not have the declared length.
    ValueLength,
    /// The pair is already held.
    Duplicate,
    /// No room was found; nothing was changed.
    TableFull,
    /// The key is not held.
    NotFound,
    /// The arity is not segmented.
    ArityNotSegmented,
    /// A matrix could not be built.
    Matrix(MatrixError),
    /// A value could not be encoded, or a bucket does not exist.
    EncodingFailed,
}

impl MapError {
    /// The text of the error.
    pub open spec fn text(self) -> Seq<char> {
        match self {
            MapError::ValueLength => "value length does not match params.value_len"@,
            MapError::Duplicate => "duplicate (tag, value) already present"@,
            MapError::TableFull => "cuckoo kicks exhausted; insert rolled back"@,
            MapError::NotFound => "delete target not found in any candidate bucket"@,
            MapError::ArityNotSegmented => "SegmentedCuckooMap requires a segmented Arity"@,
            MapError::Matrix(e) => "matrix error: "@ + e.text(),
            MapError::EncodingFailed => "value encoding failed"@,
        }
    }

    /// The text of the error.
    pub fn message(&self) -> (s: String)
        ensures
            s@ == self.text(),
    {
        let s: String = match self {
            MapError::ValueLength => text::join("value length does not match params.value_len", ""),
            MapError::Duplicate => text::join("duplicate (tag, value) already present", ""),
            MapError::TableFull => text::join("cuckoo kicks exhausted; insert rolled back", ""),
            MapError::NotFound => text::join(
                "delete target not found in any candidate bucket",
                "",
            ),
            MapError::ArityNotSegmented => text::join(
                "SegmentedCuckooMap requires a segmented Arity",
                "",
            ),
            MapError::Matrix(e) => text::join("matrix error: ", e.message()),
            MapError::EncodingFailed => text::join("value encoding failed", ""),
        };
        proof {
            reveal_strlit("");
            assert(s@ =~= self.text());
        }
        s
    }
}

impl From<MatrixError> for MapError {
    fn from(e: MatrixError) -> (r: Self) {
        MapError::Matrix(e)
    }
}

impl vstd::std_specs::convert::FromSpecImpl<MatrixError> for MapError {
    open spec fn obeys_from_spec() -> bool {
        true
    }

    open spec fn from_spec(e: MatrixError) -> Self {
        MapError::Matrix(e)
    }
}

/// A copy of a byte string.
fn copy_bytes(v: &[u8]) -> (r: Vec<u8>)
    ensures
        r@ == v@,
{
    vstd::slice::slice_to_vec(v)
}

/// The row of bucket `g`, as a message.
pub open spec fn is_row(
    r: PerSegmentRow,
    params: FilterParams,
    b: int,
    cells: Seq<Cell>,
    g: u32,
) -> bool {
    &&& r.segment_idx == g / params.spec_seg()
    &&& r.row_local_idx == g % params.spec_seg()
    &&& r.new_payload@ == row::bucket_row(params, b, cells, g as int)
}

/// The rows of the given buckets.
pub open spec fn are_rows(
    rows: Seq<PerSegmentRow>,
    params: FilterParams,
    b: int,
    cells: Seq<Cell>,
    buckets: Seq<u32>,
) -> bool {
    &&& rows.len() == buckets.len()
    &&& forall|i: int|
        0 <= i < rows.len() ==> is_row(#[trigger] rows[i], params, b, cells, buckets[i])
}

/// Whether a map can be built: the scheme is that of the parameters, rows can be laid out,
/// and the slots can be counted.
pub open spec fn setup_ok<S: IndexScheme>(scheme: S, params: FilterParams, b: u32) -> bool {
    &&& scheme.ok()
    &&& scheme.degree() == params.arity.spec_degree()
    &&& scheme.segment() == params.spec_seg()
    &&& row::layout_ok(params, b as int)
    &&& params.arity.spec_degree() * params.spec_seg() * b <= usize::MAX
}

/// Fingerprints are in range and values have the declared length.
pub open spec fn cells_ok(params: FilterParams, cells: Seq<Cell>) -> bool {
    forall|x: int|
        0 <= x < cells.len() && (#[trigger] cells[x]) is Some ==> {
            &&& 0 < (cells[x]->0).0
            &&& (cells[x]->0).0 < vstd::arithmetic::power2::pow2(params.fingerprint_bits as nat)
            &&& (cells[x]->0).1.len() == params.value_len
        }
}

/// The slot that a fingerprint and a value make.
pub open spec fn cell_of(fp: u32, value: Option<Vec<u8>>) -> Cell {
    match value {
        Some(v) => Some((fp, v@)),
        None => None,
    }
}

/// Segmented cuckoo map with values.
pub struct SegmentedCuckooMap<S: IndexScheme> {
    scheme: S,
    params: FilterParams,
    b: u32,
    k: u32,
    seg: u32,
    fps: Vec<u32>,
    values: Vec<Option<Vec<u8>>>,
    max_kicks: u32,
    rng: Keystream,
}

impl<S: IndexScheme + Clone> Clone for SegmentedCuckooMap<S> {
    fn clone(&self) -> (m: Self)
        ensures
            cloned(self.spec_scheme(), m.spec_scheme()),
            m.spec_scheme() == self.spec_scheme() ==> m.same_setup(*self),
            m.stream_pos() == self.stream_pos(),
            self.in_step() ==> m.cells() == self.cells(),
            m.spec_scheme() == self.spec_scheme() && self.wf() ==> m.wf(),
    {
        let mut fps: Vec<u32> = Vec::with_capacity(self.fps.len());
        fps.extend_from_slice(self.fps.as_slice());
        let mut values: Vec<Option<Vec<u8>>> = Vec::with_capacity(self.values.len());
        let mut x: usize = 0;
        while x < self.values.len()
            invariant
                x <= self.values@.len(),
                values@.len() == x,
                forall|i: int|
                    0 <= i < x ==> {
                        &&& (#[trigger] values@[i]) is Some <==> self.values@[i] is Some
                        &&& values@[i] is Some ==> values@[i]->0@ == self.values@[i]->0@
                    },
            decreases self.values@.len() - x,
        {
            values.push(
                match &self.values[x] {
                    Some(v) => Some(copy_bytes(v.as_slice())),
                    None => None,
                },
            );
            x = x + 1;
        }
        let m = SegmentedCuckooMap {
            scheme: self.scheme.clone(),
            params: self.params,
            b: self.b,
            k: self.k,
            seg: self.seg,
            fps,
            values,
            max_kicks: self.max_kicks,
            rng: self.rng.clone(),
        };
        proof {
            assert(m.fps@ =~= self.fps@);
            if self.in_step() {
                assert(m.cells() =~= self.cells());
            }
        }
        m
    }
}

impl<S: IndexScheme> SegmentedCuckooMap<S> {
    /// The index scheme.
    pub closed spec fn spec_scheme(self) -> S {
        self.scheme
    }

    /// The parameters.
    pub closed spec fn spec_params(self) -> FilterParams {
        self.params
    }

    /// Slots per bucket.
    pub closed spec fn spec_b(self) -> u32 {
        self.b
    }

    /// Most kicks of one insertion.
    pub closed spec fn spec_max_kicks(self) -> u32 {
        self.max_kicks
    }

    /// Seed of the key stream that picks slots and segments.
    pub closed spec fn stream_seed(self) -> Seq<u8> {
        self.rng.seed()
    }

    /// Place of the next word of the key stream.
    pub closed spec fn stream_pos(self) -> nat {
        self.rng.pos()
    }

    /// The slots.
    pub closed spec fn cells(self) -> Seq<Cell> {
        Seq::new(self.fps@.len(), |x: int| cell_of(self.fps@[x], self.values@[x]))
    }

    /// Fingerprints and values go together: a slot has a value where its fingerprint is not
    /// zero, and only there.
    pub closed spec fn in_step(self) -> bool {
        &&& self.fps@.len() == self.values@.len()
        &&& forall|x: int|
            0 <= x < self.fps@.len() ==> (#[trigger] self.fps@[x] == 0 <==> self.values@[x] is None)
        &&& self.k == self.params.arity.spec_degree()
        &&& self.seg == self.params.spec_seg()
        &&& self.rng.ready()
    }

    /// The map is consistent.
    pub open spec fn wf(self) -> bool {
        &&& self.in_step()
        &&& self.spec_params().arity.segmented()
        &&& setup_ok(self.spec_scheme(), self.spec_params(), self.spec_b())
        &&& model::shaped(self.spec_scheme(), self.spec_b() as int, self.cells())
        &&& cells_ok(self.spec_params(), self.cells())
    }

    /// Two maps that differ in their slots and in the place in the key stream only.
    pub open spec fn same_setup(self, other: Self) -> bool {
        &&& self.spec_scheme() == other.spec_scheme()
        &&& self.spec_params() == other.spec_params()
        &&& self.spec_b() == other.spec_b()
        &&& self.spec_max_kicks() == other.spec_max_kicks()
        &&& self.stream_seed() == other.stream_seed()
    }

    /// The candidates of a key.
    pub open spec fn buckets_of(self, key: Seq<u8>) -> Seq<u32> {
        model::candidates(self.spec_scheme(), key, self.spec_params().fingerprint_bits)
    }

    /// The fingerprint of a key.
    pub open spec fn tag_of(self, key: Seq<u8>) -> u32 {
        self.spec_scheme().tag_of(key, self.spec_params().fingerprint_bits)
    }

    /// What inserting a pair comes to.
    pub open spec fn insertion(self, key: Seq<u8>, value: Seq<u8>) -> model::Outcome {
        model::insertion(
            self.spec_scheme(),
            self.spec_b() as int,
            self.spec_params().fingerprint_bits,
            self.spec_params().value_len,
            self.spec_max_kicks(),
            self.stream_seed(),
            self.stream_pos(),
            self.cells(),
            key,
            value,
        )
    }

    /// The place of the key's slot: the first in its candidate buckets, in order, that holds
    /// its fingerprint.
    pub open spec fn place_of(self, key: Seq<u8>) -> Option<int> {
        model::first_found(
            self.cells(),
            self.spec_b() as int,
            self.buckets_of(key),
            self.tag_of(key),
            0,
        )
    }

    /// An empty map; its kicks are picked by the key stream of `rng_seed`.
    pub fn new(
        scheme: S,
        params: FilterParams,
        b: u32,
        max_kicks: u32,
        rng_seed: [u8; 32],
    ) -> (r: Result<Self, MapError>)
        requires
            params.arity.segmented() ==> setup_ok(scheme, params, b),
        ensures
            !params.arity.segmented() ==> r == Err::<Self, MapError>(MapError::ArityNotSegmented),
            params.arity.segmented() ==> {
                &&& r is Ok
                &&& r->Ok_0.wf()
                &&& r->Ok_0.spec_scheme() == scheme
                &&& r->Ok_0.spec_params() == params
                &&& r->Ok_0.spec_b() == b
                &&& r->Ok_0.spec_max_kicks() == max_kicks
                &&& r->Ok_0.stream_seed() == rng_seed@
                &&& r->Ok_0.stream_pos() == 0
                &&& forall|x: int|
                    0 <= x < r->Ok_0.cells().len() ==> (#[trigger] r->Ok_0.cells()[x]) is None
            },
    {
        if !params.arity.is_segmented() {
            return Err(MapError::ArityNotSegmented);
        }
        let k: u32 = params.degree();
        let seg: u32 = params.seg();
        proof {
            scheme.lemma_shape();
            assert(k * seg * b >= k * seg) by (nonlinear_arith)
                requires
                    k * seg >= 0,
                    b >= 1,
            ;
        }
        let n: usize = (k as usize) * (seg as usize) * (b as usize);
        let fps: Vec<u32> = vec![0; n];
        let mut values: Vec<Option<Vec<u8>>> = Vec::with_capacity(n);
        let mut x: usize = 0;
        while x < n
            invariant
                x <= n,
                values@.len() == x,
                forall|i: int| 0 <= i < x ==> (#[trigger] values@[i]) is None,
            decreases n - x,
        {
            values.push(None);
            x = x + 1;
        }
        Ok(
            SegmentedCuckooMap {
                scheme,
                params,
                b,
                k,
                seg,
                fps,
                values,
                max_kicks,
                rng: Keystream::from_seed(rng_seed),
            },
        )
    }

    /// The parameters.
    pub fn params(&self) -> (p: &FilterParams)
        ensures
            *p == self.spec_params(),
    {
        &self.params
    }

    /// Slots per bucket.
    pub fn slots_per_bucket(&self) -> (b: u32)
        ensures
            b == self.spec_b(),
    {
        self.b
    }

    /// Number of segments.
    pub fn k(&self) -> (k: u32)
        requires
            self.wf(),
        ensures
            k == self.spec_params().arity.spec_degree(),
    {
        self.k
    }

    /// Buckets per segment.
    pub fn seg(&self) -> (s: u32)
        requires
            self.wf(),
        ensures
            s == self.spec_params().spec_seg(),
    {
        self.seg
    }

    /// Elements per fingerprint.
    pub fn fp_elems(&self) -> (n: u32)
        requires
            self.wf(),
        ensures
            n == self.spec_params().spec_fp_elems(),
    {
        self.params.fp_elems()
    }

    /// Elements per value.
    pub fn val_elems(&self) -> (n: u32)
        requires
            self.wf(),
        ensures
            n == geometry::ceil_div(
                self.spec_params().value_len * 8,
                self.spec_params().mat_elem_bit_len as int,
            ),
            n == self.spec_params().row_elems,
    {
        self.params.val_elems()
    }

    /// Elements per slot.
    pub fn slot_elems(&self) -> (n: u32)
        requires
            self.wf(),
        ensures
            n == row::slot_elems(self.spec_params()),
    {
        proof {
            row::lemma_slot_elems(self.params, self.b as int);
        }
        self.fp_elems() + self.val_elems()
    }

    /// Elements per bucket row.
    pub fn row_elems_bucket(&self) -> (n: u32)
        requires
            self.wf(),
        ensures
            n == self.spec_b() * row::slot_elems(self.spec_params()),
    {
        self.b * self.slot_elems()
    }

    /// Fingerprint and candidate buckets of a key.
    pub fn lookup_candidates(&self, key: &[u8]) -> (r: (u32, [u32; 4]))
        requires
            self.wf(),
        ensures
            r.0 == self.tag_of(key@),
            r.1@.take(self.spec_params().arity.spec_degree() as int) == self.buckets_of(key@),
            forall|j: int|
                self.spec_params().arity.spec_degree() <= j < 4 ==> #[trigger] r.1@[j] == 0,
    {
        let r: (u32, [u32; 4]) = self.scheme.hash_item(key, self.params.fingerprint_bits);
        proof {
            assert(r.1@.take(self.k as int) =~= self.buckets_of(key@));
        }
        r
    }

    /// The fingerprint in slot `slot` of bucket `local` of segment `segment`; zero where it is
    /// empty.
    pub fn read_fingerprint(&self, segment: u32, local: u32, slot: u32) -> (fp: u32)
        requires
            self.wf(),
            segment < self.spec_params().arity.spec_degree(),
            local < self.spec_params().spec_seg(),
            slot < self.spec_b(),
        ensures
            fp == match self.cells()[(segment * self.spec_params().spec_seg() + local)
                * self.spec_b() + slot] {
                Some(e) => e.0,
                None => 0,
            },
    {
        let x: usize = self.place(segment, local, slot);
        self.fps[x]
    }

    /// The value in slot `slot` of bucket `local` of segment `segment`, if there is one.
    pub fn read_value(&self, segment: u32, local: u32, slot: u32) -> (v: Option<&Vec<u8>>)
        requires
            self.wf(),
            segment < self.spec_params().arity.spec_degree(),
            local < self.spec_params().spec_seg(),
            slot < self.spec_b(),
        ensures
            ({
                let cell = self.cells()[(segment * self.spec_params().spec_seg() + local)
                    * self.spec_b() + slot];
                &&& v is Some <==> cell is Some
                &&& v is Some ==> v->0@ == (cell->0).1
            }),
    {
        let x: usize = self.place(segment, local, slot);
        match &self.values[x] {
            Some(v) => Some(v),
            None => None,
        }
    }

    /// Writes a pair into slot `slot` of bucket `local` of segment `segment`.
    pub fn write_slot(&mut self, segment: u32, local: u32, slot: u32, fp: u32, value: Vec<u8>)
        requires
            old(self).wf(),
            segment < old(self).spec_params().arity.spec_degree(),
            local < old(self).spec_params().spec_seg(),
            slot < old(self).spec_b(),
            0 < fp < vstd::arithmetic::power2::pow2(
                old(self).spec_params().fingerprint_bits as nat,
            ),
            value@.len() == old(self).spec_params().value_len,
        ensures
            final(self).wf(),
            final(self).same_setup(*old(self)),
            final(self).stream_pos() == old(self).stream_pos(),
            final(self).cells() == old(self).cells().update(
                (segment * old(self).spec_params().spec_seg() + local) * old(self).spec_b() + slot,
                Some((fp, value@)),
            ),
    {
        let x: usize = self.place(segment, local, slot);
        self.put(x, fp, Some(value));
    }

    /// The place of a slot.
    fn place(&self, segment: u32, local: u32, slot: u32) -> (x: usize)
        requires
            self.wf(),
            segment < self.spec_params().arity.spec_degree(),
            local < self.spec_params().spec_seg(),
            slot < self.spec_b(),
        ensures
            x == (segment * self.spec_params().spec_seg() + local) * self.spec_b() + slot,
            x < self.cells().len(),
    {
        proof {
            self.scheme.lemma_shape();
            let seg = self.seg as int;
            let k = self.k as int;
            crate::arith::lemma_cell(segment as int, local as int, k, seg);
            let g = segment * seg + local;
            model::lemma_slot(self.scheme, self.b as int, self.cells(), g, slot as int);
            assert(self.fps.len() == self.fps@.len());
            assert(g <= g * self.b) by (nonlinear_arith)
                requires
                    g >= 0,
                    self.b >= 1,
            ;
        }
        ((segment as usize) * (self.seg as usize) + local as usize) * (self.b as usize)
            + slot as usize
    }

    /// Writes one slot.
    fn put(&mut self, x: usize, fp: u32, value: Option<Vec<u8>>)
        requires
            old(self).wf(),
            x < old(self).cells().len(),
            fp == 0 <==> value is None,
            fp < vstd::arithmetic::power2::pow2(old(self).spec_params().fingerprint_bits as nat),
            value is Some ==> value->0@.len() == old(self).spec_params().value_len,
        ensures
            final(self).wf(),
            final(self).same_setup(*old(self)),
            final(self).stream_pos() == old(self).stream_pos(),
            final(self).cells() == old(self).cells().update(x as int, cell_of(fp, value)),
    {
        let ghost c0 = self.cells();
        let ghost cell = cell_of(fp, value);
        self.fps.set(x, fp);
        self.values.set(x, value);
        proof {
            assert(self.cells() =~= c0.update(x as int, cell));
        }
    }

    /// The first empty slot of bucket `g`.
    fn find_empty(&self, g: u32) -> (s: Option<u32>)
        requires
            self.wf(),
            g < self.spec_scheme().degree() * self.spec_scheme().segment(),
        ensures
            model::first_empty(self.cells(), self.spec_b() as int, g as int, 0) == match s {
                Some(t) => Some(t as int),
                None => None,
            },
            s is Some ==> s->0 < self.spec_b(),
    {
        let b: usize = self.b as usize;
        let mut s: u32 = 0;
        assert(self.fps.len() == self.fps@.len());
        while s < self.b
            invariant
                s <= self.b,
                b == self.b,
                self.wf(),
                self.fps@.len() <= usize::MAX,
                g < self.scheme.degree() * self.scheme.segment(),
                model::first_empty(self.cells(), b as int, g as int, 0) == model::first_empty(
                    self.cells(),
                    b as int,
                    g as int,
                    s as int,
                ),
            decreases self.b - s,
        {
            proof {
                model::lemma_slot(self.scheme, b as int, self.cells(), g as int, s as int);
            }
            let x: usize = (g as usize) * b + s as usize;
            if self.fps[x] == 0 {
                return Some(s);
            }
            s = s + 1;
        }
        None
    }

    /// The first slot of bucket `g` with the fingerprint.
    fn find_tag(&self, g: u32, tag: u32) -> (s: Option<u32>)
        requires
            self.wf(),
            tag != 0,
            g < self.spec_scheme().degree() * self.spec_scheme().segment(),
        ensures
            model::first_tag(self.cells(), self.spec_b() as int, g as int, tag, 0) == match s {
                Some(t) => Some(t as int),
                None => None,
            },
            s is Some ==> s->0 < self.spec_b(),
    {
        let b: usize = self.b as usize;
        let mut s: u32 = 0;
        assert(self.fps.len() == self.fps@.len());
        while s < self.b
            invariant
                s <= self.b,
                b == self.b,
                tag != 0,
                self.wf(),
                self.fps@.len() <= usize::MAX,
                g < self.scheme.degree() * self.scheme.segment(),
                model::first_tag(self.cells(), b as int, g as int, tag, 0) == model::first_tag(
                    self.cells(),
                    b as int,
                    g as int,
                    tag,
                    s as int,
                ),
            decreases self.b - s,
        {
            proof {
                model::lemma_slot(self.scheme, b as int, self.cells(), g as int, s as int);
            }
            let x: usize = (g as usize) * b + s as usize;
            if self.fps[x] == tag {
                return Some(s);
            }
            s = s + 1;
        }
        None
    }

    /// The first empty slot of the buckets, passing over one of them.
    fn find_place(&self, buckets: &[u32; 4], skip: usize) -> (x: Option<usize>)
        requires
            self.wf(),
            forall|j: int|
                0 <= j < self.spec_scheme().degree() ==> (#[trigger] buckets@[j])
                    < self.spec_scheme().degree() * self.spec_scheme().segment(),
        ensures
            model::first_place(
                self.cells(),
                self.spec_b() as int,
                buckets@.take(self.spec_scheme().degree() as int),
                skip as int,
                0,
            ) == match x {
                Some(y) => Some(y as int),
                None => None,
            },
    {
        let k: usize = self.k as usize;
        let ghost view = buckets@.take(k as int);
        let mut j: usize = 0;
        proof {
            self.scheme.lemma_shape();
        }
        assert(self.fps.len() == self.fps@.len());
        while j < k
            invariant
                j <= k <= 4,
                k == self.scheme.degree(),
                self.wf(),
                self.fps@.len() <= usize::MAX,
                view == buckets@.take(k as int),
                forall|i: int|
                    0 <= i < k ==> (#[trigger] buckets@[i]) < self.scheme.degree()
                        * self.scheme.segment(),
                model::first_place(self.cells(), self.b as int, view, skip as int, 0)
                    == model::first_place(
                    self.cells(),
                    self.b as int,
                    view,
                    skip as int,
                    j as int,
                ),
            decreases k - j,
        {
            proof {
                assert(view[j as int] == buckets@[j as int]);
            }
            if j != skip {
                let g: u32 = buckets[j];
                match self.find_empty(g) {
                    Some(s) => {
                        proof {
                            model::lemma_slot(
                                self.scheme,
                                self.b as int,
                                self.cells(),
                                g as int,
                                s as int,
                            );
                        }
                        return Some((g as usize) * (self.b as usize) + s as usize);
                    },
                    None => {},
                }
            }
            j = j + 1;
        }
        None
    }

    /// The first slot of the buckets that holds the fingerprint.
    fn find_slot(&self, buckets: &[u32; 4], tag: u32) -> (x: Option<usize>)
        requires
            self.wf(),
            tag != 0,
            forall|j: int|
                0 <= j < self.spec_scheme().degree() ==> (#[trigger] buckets@[j])
                    < self.spec_scheme().degree() * self.spec_scheme().segment(),
        ensures
            model::first_found(
                self.cells(),
                self.spec_b() as int,
                buckets@.take(self.spec_scheme().degree() as int),
                tag,
                0,
            ) == match x {
                Some(y) => Some(y as int),
                None => None,
            },
            x is Some ==> x->0 < self.cells().len() && (x->0 as int / self.spec_b() as int)
                < self.spec_scheme().degree() * self.spec_scheme().segment(),
    {
        let k: usize = self.k as usize;
        let ghost view = buckets@.take(k as int);
        let mut j: usize = 0;
        proof {
            self.scheme.lemma_shape();
        }
        assert(self.fps.len() == self.fps@.len());
        while j < k
            invariant
                j <= k <= 4,
                k == self.scheme.degree(),
                tag != 0,
                self.wf(),
                self.fps@.len() <= usize::MAX,
                view == buckets@.take(k as int),
                forall|i: int|
                    0 <= i < k ==> (#[trigger] buckets@[i]) < self.scheme.degree()
                        * self.scheme.segment(),
                model::first_found(self.cells(), self.b as int, view, tag, 0)
                    == model::first_found(self.cells(), self.b as int, view, tag, j as int),
            decreases k - j,
        {
            proof {
                assert(view[j as int] == buckets@[j as int]);
            }
            let g: u32 = buckets[j];
            match self.find_tag(g, tag) {
                Some(s) => {
                    proof {
                        model::lemma_slot(
                            self.scheme,
                            self.b as int,
                            self.cells(),
                            g as int,
                            s as int,
                        );
                    }
                    return Some((g as usize) * (self.b as usize) + s as usize);
                },
                None => {},
            }
            j = j + 1;
        }
        None
    }
}

// ---------------------------------------------------------------- rows
impl<S: IndexScheme> SegmentedCuckooMap<S> {
    /// Appends the elements of one slot.
    fn append_slot(&self, out: &mut Vec<u32>, x: usize)
        requires
            self.wf(),
            x < self.cells().len(),
            old(out)@.len() + row::slot_elems(self.spec_params()) <= usize::MAX,
        ensures
            final(out)@ == old(out)@ + Seq::new(
                row::slot_elems(self.spec_params()) as nat,
                |o: int| row::slot_elem(self.spec_params(), self.cells()[x as int], o),
            ),
    {
        let ghost before = out@;
        let ghost cell = self.cells()[x as int];
        let ghost p = self.params;
        proof {
            row::lemma_slot_elems(self.params, self.b as int);
        }
        let f: usize = self.fp_elems() as usize;
        let v: usize = self.val_elems() as usize;
        let mut fp: Vec<u32> = vec![0; f];
        encode_fp_into(
            self.fps[x],
            self.params.fingerprint_bits,
            self.params.mat_elem_bit_len,
            fp.as_mut_slice(),
        );
        proof {
            if cell is None {
                assert forall|o: int| 0 <= o < f implies #[trigger] fp@[o] == 0 by {
                    row::lemma_zero_chunk(p, o);
                }
            }
        }
        out.append(&mut fp);
        match &self.values[x] {
            Some(value) => {
                let encoded: Option<Vec<u32>> = encode_value(value.as_slice(), &self.params);
                let mut elems: Vec<u32> = encoded.unwrap();
                out.append(&mut elems);
            },
            None => {
                let mut elems: Vec<u32> = vec![0; v];
                out.append(&mut elems);
            },
        }
        proof {
            assert(out@ =~= before + Seq::new(
                row::slot_elems(p) as nat,
                |o: int| row::slot_elem(p, cell, o),
            ));
        }
    }

    /// The row of bucket `g`.
    fn row_of(&self, g: u32) -> (out: Vec<u32>)
        requires
            self.wf(),
            g < self.spec_scheme().degree() * self.spec_scheme().segment(),
        ensures
            out@ == row::bucket_row(
                self.spec_params(),
                self.spec_b() as int,
                self.cells(),
                g as int,
            ),
    {
        let ghost p = self.params;
        let ghost b = self.b as int;
        let ghost n = row::slot_elems(p);
        let ghost target = row::bucket_row(p, b, self.cells(), g as int);
        let mut out: Vec<u32> = Vec::with_capacity(self.row_elems_bucket() as usize);
        let mut s: u32 = 0;
        assert(self.fps.len() == self.fps@.len());
        proof {
            row::lemma_slot_elems(p, b);
            assert(0 * n == 0) by (nonlinear_arith);
            assert(out@ =~= target.take(0));
        }
        while s < self.b
            invariant
                s <= self.b == b,
                self.wf(),
                self.fps@.len() <= usize::MAX,
                p == self.params,
                n == row::slot_elems(p),
                n >= 1,
                b * n <= u32::MAX,
                g < self.scheme.degree() * self.scheme.segment(),
                target == row::bucket_row(p, b, self.cells(), g as int),
                out@ == target.take(s * n),
                out@.len() == s * n,
            decreases self.b - s,
        {
            proof {
                model::lemma_slot(self.scheme, b, self.cells(), g as int, s as int);
                assert((s + 1) * n == s * n + n) by (nonlinear_arith);
                assert((s + 1) * n <= b * n) by (nonlinear_arith)
                    requires
                        s + 1 <= b,
                        n >= 0,
                ;
                assert(0 <= s * n) by (nonlinear_arith)
                    requires
                        0 <= s,
                        n >= 0,
                ;
            }
            let x: usize = (g as usize) * (self.b as usize) + s as usize;
            self.append_slot(&mut out, x);
            proof {
                assert forall|i: int| 0 <= i < (s + 1) * n implies out@[i] == target[i] by {
                    if i >= s * n {
                        let o = i - s * n;
                        vstd::arithmetic::div_mod::lemma_fundamental_div_mod_converse(
                            i,
                            n,
                            s as int,
                            o,
                        );
                    } else {
                        assert(out@[i] == target.take(s * n)[i]);
                    }
                }
                assert(out@ =~= target.take((s + 1) * n));
            }
            s = s + 1;
        }
        proof {
            assert(target.take(b * n) =~= target);
        }
        out
    }

    /// The row of a bucket; an error where there is no such bucket.
    pub fn encode_bucket(&self, segment_idx: u8, row_local_idx: u32) -> (r: Result<
        Vec<u32>,
        MapError,
    >)
        requires
            self.wf(),
        ensures
            segment_idx >= self.spec_params().arity.spec_degree() || row_local_idx
                >= self.spec_params().spec_seg() ==> r == Err::<Vec<u32>, MapError>(
                MapError::EncodingFailed,
            ),
            segment_idx < self.spec_params().arity.spec_degree() && row_local_idx
                < self.spec_params().spec_seg() ==> r is Ok && r->Ok_0@ == row::bucket_row(
                self.spec_params(),
                self.spec_b() as int,
                self.cells(),
                segment_idx * self.spec_params().spec_seg() + row_local_idx,
            ),
    {
        if segment_idx as u32 >= self.k || row_local_idx >= self.seg {
            return Err(MapError::EncodingFailed);
        }
        proof {
            self.scheme.lemma_shape();
            crate::arith::lemma_cell(
                segment_idx as int,
                row_local_idx as int,
                self.k as int,
                self.seg as int,
            );
        }
        Ok(self.row_of((segment_idx as u32) * self.seg + row_local_idx))
    }

    /// One matrix per segment, with the rows of its buckets.
    pub fn to_matrices(&self) -> (r: Result<Vec<Matrix>, MapError>)
        requires
            self.wf(),
        ensures
            self.spec_params().spec_seg() * (self.spec_b() * row::slot_elems(self.spec_params()))
                > usize::MAX ==> r == Err::<Vec<Matrix>, MapError>(
                MapError::Matrix(MatrixError::DimensionOverflow),
            ),
            self.spec_params().spec_seg() * (self.spec_b() * row::slot_elems(self.spec_params()))
                <= usize::MAX ==> r is Ok && self.are_matrices(r->Ok_0@),
    {
        let cols: u32 = self.row_elems_bucket();
        match Matrix::flat_len(self.seg, cols) {
            Ok(_) => {},
            Err(e) => {
                return Err(MapError::Matrix(e));
            },
        }
        let mut mats: Vec<Matrix> = Vec::with_capacity(self.k as usize);
        let mut j: u32 = 0;
        while j < self.k
            invariant
                j <= self.k,
                self.wf(),
                cols == self.b * row::slot_elems(self.params),
                self.seg * cols <= usize::MAX,
                mats@.len() == j,
                forall|i: int|
                    0 <= i < j ==> self.is_matrix(#[trigger] mats@[i], i),
            decreases self.k - j,
        {
            let elems: Vec<u32> = self.segment_rows(j, cols);
            proof {
                let seg = self.seg as int;
                let w = cols as int;
                assert(elems@.len() == seg * w);
            }
            match Matrix::from_elems(self.seg, cols, elems) {
                Ok(m) => {
                    proof {
                        assert(self.is_matrix(m, j as int));
                    }
                    mats.push(m);
                },
                Err(e) => {
                    return Err(MapError::Matrix(e));
                },
            }
            j = j + 1;
        }
        Ok(mats)
    }

    /// `m` holds the rows of the buckets of segment `j`.
    pub open spec fn is_matrix(self, m: Matrix, j: int) -> bool {
        &&& m.wf()
        &&& m.spec_rows() == self.spec_params().spec_seg()
        &&& m.spec_cols() == self.spec_b() * row::slot_elems(self.spec_params())
        &&& forall|l: int|
            0 <= l < m.spec_rows() ==> #[trigger] m.spec_row(l) == row::bucket_row(
                self.spec_params(),
                self.spec_b() as int,
                self.cells(),
                j * self.spec_params().spec_seg() + l,
            )
    }

    /// The matrices of all segments.
    pub open spec fn are_matrices(self, mats: Seq<Matrix>) -> bool {
        &&& mats.len() == self.spec_params().arity.spec_degree()
        &&& forall|j: int| 0 <= j < mats.len() ==> self.is_matrix(#[trigger] mats[j], j)
    }

    /// The rows of the buckets of segment `j`, one after another.
    fn segment_rows(&self, j: u32, cols: u32) -> (elems: Vec<u32>)
        requires
            self.wf(),
            j < self.spec_params().arity.spec_degree(),
            cols == self.spec_b() * row::slot_elems(self.spec_params()),
            self.spec_params().spec_seg() * cols <= usize::MAX,
        ensures
            elems@.len() == self.spec_params().spec_seg() * cols,
            forall|l: int|
                0 <= l < self.spec_params().spec_seg() ==> #[trigger] elems@.subrange(
                    l * cols,
                    l * cols + cols,
                ) == row::bucket_row(
                    self.spec_params(),
                    self.spec_b() as int,
                    self.cells(),
                    j * self.spec_params().spec_seg() + l,
                ),
    {
        let ghost seg = self.seg as int;
        let ghost w = cols as int;
        let mut elems: Vec<u32> = Vec::new();
        let mut l: u32 = 0;
        proof {
            self.scheme.lemma_shape();
            assert(0 * w == 0) by (nonlinear_arith);
        }
        while l < self.seg
            invariant
                l <= self.seg == seg,
                self.wf(),
                j < self.k,
                w == cols == self.b * row::slot_elems(self.params),
                seg * w <= usize::MAX,
                elems@.len() == l * w,
                forall|i: int|
                    0 <= i < l ==> #[trigger] elems@.subrange(i * w, i * w + w) == row::bucket_row(
                        self.params,
                        self.b as int,
                        self.cells(),
                        j * seg + i,
                    ),
            decreases self.seg - l,
        {
            proof {
                self.scheme.lemma_shape();
                crate::arith::lemma_cell(j as int, l as int, self.k as int, seg);
                assert((l + 1) * w == l * w + w) by (nonlinear_arith);
            }
            let g: u32 = j * self.seg + l;
            let mut r: Vec<u32> = self.row_of(g);
            let ghost rv = r@;
            let ghost before = elems@;
            elems.append(&mut r);
            proof {
                assert forall|i: int| 0 <= i < l + 1 implies #[trigger] elems@.subrange(
                    i * w,
                    i * w + w,
                ) == row::bucket_row(self.params, self.b as int, self.cells(), j * seg + i) by {
                    if i < l {
                        assert(0 <= i * w && i * w + w <= l * w) by (nonlinear_arith)
                            requires
                                0 <= i,
                                i + 1 <= l,
                                0 <= w,
                        ;
                        assert(elems@.subrange(i * w, i * w + w) =~= before.subrange(
                            i * w,
                            i * w + w,
                        ));
                    } else {
                        assert(elems@.subrange(i * w, i * w + w) =~= rv);
                    }
                }
            }
            l = l + 1;
        }
        elems
    }

    /// The row of bucket `g` as a message.
    fn message_of(&self, g: u32) -> (r: PerSegmentRow)
        requires
            self.wf(),
            g < self.spec_scheme().degree() * self.spec_scheme().segment(),
        ensures
            is_row(r, self.spec_params(), self.spec_b() as int, self.cells(), g),
    {
        proof {
            self.scheme.lemma_shape();
            let seg = self.seg as int;
            let k = self.k as int;
            vstd::arithmetic::div_mod::lemma_fundamental_div_mod(g as int, seg);
            vstd::arithmetic::div_mod::lemma_mod_bound(g as int, seg);
            let p = g as int / seg;
            assert(p < k) by (nonlinear_arith)
                requires
                    seg * p <= g,
                    g < k * seg,
                    seg > 0,
            ;
        }
        PerSegmentRow {
            segment_idx: (g / self.seg) as u8,
            row_local_idx: g % self.seg,
            new_payload: self.row_of(g),
        }
    }

    /// The rows of the touched buckets, each where it was touched last.
    fn collapse_trace_to_batch(&self, touched: &[u32]) -> (batch: UpdateBatch)
        requires
            self.wf(),
            forall|i: int|
                0 <= i < touched@.len() ==> (#[trigger] touched@[i])
                    < self.spec_scheme().degree() * self.spec_scheme().segment(),
        ensures
            are_rows(
                batch.rows@,
                self.spec_params(),
                self.spec_b() as int,
                self.cells(),
                model::last_touches(touched@, touched@.len() as int),
            ),
    {
        let mut rows: Vec<PerSegmentRow> = Vec::new();
        let mut i: usize = 0;
        while i < touched.len()
            invariant
                i <= touched@.len(),
                self.wf(),
                forall|x: int|
                    0 <= x < touched@.len() ==> (#[trigger] touched@[x]) < self.scheme.degree()
                        * self.scheme.segment(),
                are_rows(
                    rows@,
                    self.params,
                    self.b as int,
                    self.cells(),
                    model::last_touches(touched@, i as int),
                ),
            decreases touched@.len() - i,
        {
            let g: u32 = touched[i];
            let ghost rest = touched@.skip(i as int + 1);
            let mut later: bool = false;
            let mut y: usize = i + 1;
            while y < touched.len() && !later
                invariant
                    i < y <= touched@.len(),
                    rest == touched@.skip(i as int + 1),
                    later <==> exists|x: int| i < x < y && #[trigger] touched@[x] == g,
                decreases touched@.len() - y,
            {
                if touched[y] == g {
                    later = true;
                }
                y = y + 1;
            }
            proof {
                if later {
                    let x = choose|x: int| i < x < y && #[trigger] touched@[x] == g;
                    assert(rest[x - (i + 1)] == g);
                } else if rest.contains(g) {
                    let x = choose|x: int| 0 <= x < rest.len() && rest[x] == g;
                    assert(touched@[x + i + 1] == g);
                }
            }
            if !later {
                let ghost before = rows@;
                rows.push(self.message_of(g));
                proof {
                    let buckets = model::last_touches(touched@, i as int + 1);
                    assert forall|x: int| 0 <= x < rows@.len() implies is_row(
                        #[trigger] rows@[x],
                        self.params,
                        self.b as int,
                        self.cells(),
                        buckets[x],
                    ) by {
                        if x < before.len() {
                            assert(rows@[x] == before[x]);
                        }
                    }
                }
            }
            i = i + 1;
        }
        UpdateBatch { rows }
    }
}

// ---------------------------------------------------------------- operations
/// The slots before the writes of a trace, which holds the place and the old contents of
/// each written slot, oldest first.
spec fn undone(cells: Seq<Cell>, trace: Seq<(usize, u32, Option<Vec<u8>>)>) -> Seq<Cell>
    decreases trace.len(),
{
    if trace.len() == 0 {
        cells
    } else {
        undone(
            cells.update(trace.last().0 as int, cell_of(trace.last().1, trace.last().2)),
            trace.drop_last(),
        )
    }
}

/// What is recorded of a slot can be written back.
spec fn restorable(
    params: FilterParams,
    n: nat,
    trace: Seq<(usize, u32, Option<Vec<u8>>)>,
) -> bool {
    forall|i: int|
        0 <= i < trace.len() ==> {
            let t = #[trigger] trace[i];
            &&& t.0 < n
            &&& t.1 == 0 <==> t.2 is None
            &&& t.1 < vstd::arithmetic::power2::pow2(params.fingerprint_bits as nat)
            &&& t.2 is Some ==> t.2->0@.len() == params.value_len
        }
}

impl<S: IndexScheme> SegmentedCuckooMap<S> {
    /// Whether one of the buckets holds the pair.
    fn holds_pair(&self, buckets: &[u32; 4], tag: u32, value: &[u8]) -> (r: bool)
        requires
            self.wf(),
            tag != 0,
            forall|j: int|
                0 <= j < self.spec_scheme().degree() ==> (#[trigger] buckets@[j])
                    < self.spec_scheme().degree() * self.spec_scheme().segment(),
        ensures
            r == model::has_pair(
                self.cells(),
                self.spec_b() as int,
                buckets@.take(self.spec_scheme().degree() as int),
                tag,
                value@,
            ),
    {
        let k: usize = self.k as usize;
        let b: usize = self.b as usize;
        let ghost view = buckets@.take(k as int);
        let mut j: usize = 0;
        proof {
            self.scheme.lemma_shape();
        }
        assert(self.fps.len() == self.fps@.len());
        while j < k
            invariant
                j <= k <= 4,
                k == self.scheme.degree(),
                b == self.b,
                tag != 0,
                self.wf(),
                self.fps@.len() <= usize::MAX,
                view == buckets@.take(k as int),
                forall|i: int|
                    0 <= i < k ==> (#[trigger] buckets@[i]) < self.scheme.degree()
                        * self.scheme.segment(),
                forall|i: int, t: int|
                    0 <= i < j && 0 <= t < b ==> #[trigger] self.cells()[view[i] * b + t] != Some(
                        (tag, value@),
                    ),
            decreases k - j,
        {
            let g: u32 = buckets[j];
            let mut s: usize = 0;
            while s < b
                invariant
                    j < k <= 4,
                    k == self.scheme.degree(),
                    s <= b == self.b,
                    tag != 0,
                    self.wf(),
                    self.fps@.len() <= usize::MAX,
                    view == buckets@.take(k as int),
                    g == view[j as int],
                    g < self.scheme.degree() * self.scheme.segment(),
                    forall|t: int|
                        0 <= t < s ==> #[trigger] self.cells()[g * b + t] != Some((tag, value@)),
                decreases b - s,
            {
                proof {
                    model::lemma_slot(self.scheme, b as int, self.cells(), g as int, s as int);
                }
                let x: usize = (g as usize) * b + s;
                if self.fps[x] == tag {
                    match &self.values[x] {
                        Some(stored) => {
                            if bytes_equal(stored.as_slice(), value) {
                                proof {
                                    assert(self.cells()[view[j as int] * b + s] == Some(
                                        (tag, value@),
                                    ));
                                }
                                return true;
                            }
                        },
                        None => {},
                    }
                }
                s = s + 1;
            }
            j = j + 1;
        }
        false
    }

    /// Kicks pairs around until the last one finds room; where none does, everything is
    /// put back. The touched buckets are handed out on success.
    fn kick(&mut self, buckets: &[u32; 4], tag: u32, value: &[u8]) -> (r: Option<Vec<u32>>)
        requires
            old(self).wf(),
            0 < tag < vstd::arithmetic::power2::pow2(
                old(self).spec_params().fingerprint_bits as nat,
            ),
            value@.len() == old(self).spec_params().value_len,
            forall|j: int|
                0 <= j < old(self).spec_scheme().degree() ==> {
                    &&& (#[trigger] buckets@[j]) < old(self).spec_scheme().degree() * old(
                        self,
                    ).spec_scheme().segment()
                    &&& model::is_full(
                        old(self).cells(),
                        old(self).spec_b() as int,
                        buckets@[j] as int,
                    )
                },
        ensures
            final(self).wf(),
            final(self).same_setup(*old(self)),
            ({
                let start = crate::backend::prg::keystream_word(
                    old(self).stream_seed(),
                    old(self).stream_pos(),
                ) as int % old(self).spec_scheme().degree() as int;
                let out = model::kicks(
                    old(self).spec_scheme(),
                    old(self).spec_b() as int,
                    old(self).stream_seed(),
                    old(self).cells(),
                    Seq::empty(),
                    model::step(old(self).stream_pos()),
                    buckets@[start],
                    tag,
                    value@,
                    old(self).spec_max_kicks() as nat,
                );
                &&& final(self).stream_pos() == out.pos
                &&& match r {
                    Some(touched) => {
                        &&& out.error is None
                        &&& final(self).cells() == out.cells
                        &&& touched@ == out.touched
                        &&& forall|i: int|
                            0 <= i < touched@.len() ==> (#[trigger] touched@[i]) < old(
                                self,
                            ).spec_scheme().degree() * old(self).spec_scheme().segment()
                    },
                    None => {
                        &&& out.error == Some(MapError::TableFull)
                        &&& final(self).cells() == old(self).cells()
                    },
                }
            }),
    {
        let ghost sch = self.scheme;
        let ghost b = self.b as int;
        let ghost seed = self.rng.seed();
        let ghost c0 = self.cells();
        let ghost old_map = *self;
        proof {
            sch.lemma_shape();
        }
        let start: usize = (self.rng.next_u32() % self.k) as usize;
        let mut g: u32 = buckets[start];
        let ghost g0 = g;
        let ghost pos1 = self.rng.pos();
        let mut cur: u32 = tag;
        let mut val: Vec<u8> = copy_bytes(value);
        let mut touched: Vec<u32> = Vec::new();
        let mut trace: Vec<(usize, u32, Option<Vec<u8>>)> = Vec::new();
        let ghost whole = model::kicks(
            sch,
            b,
            seed,
            c0,
            Seq::empty(),
            pos1,
            g0,
            tag,
            value@,
            self.max_kicks as nat,
        );
        let mut left: u32 = self.max_kicks;
        proof {
            assert(self.cells() =~= c0);
            assert(undone(self.cells(), trace@) == c0);
            assert(touched@ =~= Seq::empty());
        }
        while left > 0
            invariant
                self.wf(),
                self.same_setup(old_map),
                sch == self.scheme,
                b == self.b,
                seed == self.rng.seed(),
                0 < cur < vstd::arithmetic::power2::pow2(self.params.fingerprint_bits as nat),
                val@.len() == self.params.value_len,
                g < sch.degree() * sch.segment(),
                model::is_full(self.cells(), b, g as int),
                whole == model::kicks(
                    sch,
                    b,
                    seed,
                    self.cells(),
                    touched@,
                    self.rng.pos(),
                    g,
                    cur,
                    val@,
                    left as nat,
                ),
                self.cells().len() == c0.len(),
                undone(self.cells(), trace@) == c0,
                restorable(self.params, c0.len(), trace@),
                forall|i: int|
                    0 <= i < touched@.len() ==> (#[trigger] touched@[i]) < sch.degree()
                        * sch.segment(),
                old_map == *old(self),
                whole == model::kicks(
                    sch,
                    b,
                    seed,
                    old_map.cells(),
                    Seq::empty(),
                    model::step(old_map.stream_pos()),
                    buckets@[crate::backend::prg::keystream_word(
                        seed,
                        old_map.stream_pos(),
                    ) as int % sch.degree() as int],
                    tag,
                    value@,
                    old_map.spec_max_kicks() as nat,
                ),
            decreases left,
        {
            let ghost cells = self.cells();
            let ghost pos = self.rng.pos();
            let slot: u32 = self.rng.next_u32() % self.b;
            assert(self.fps.len() == self.fps@.len());
            proof {
                sch.lemma_shape();
                assert(self.cells() =~= cells);
                model::lemma_slot(sch, b, cells, g as int, slot as int);
            }
            let x: usize = (g as usize) * (self.b as usize) + slot as usize;
            let out_fp: u32 = self.fps[x];
            let out_val: Vec<u8> = match &self.values[x] {
                Some(v) => copy_bytes(v.as_slice()),
                None => Vec::new(),
            };
            proof {
                assert(cells[x as int] is Some);
                assert(cells[x as int] == Some((out_fp, out_val@)));
            }
            let saved: Vec<u8> = copy_bytes(out_val.as_slice());
            let ghost trace0 = trace@;
            trace.push((x, out_fp, Some(saved)));
            self.put(x, cur, Some(val));
            touched.push(g);
            let ghost next = self.cells();
            proof {
                assert(trace@.drop_last() =~= trace0);
                assert(next.update(x as int, cell_of(out_fp, Some(saved))) =~= cells);
                assert(undone(next, trace@) == undone(cells, trace0));
                model::lemma_alternates(sch, g, out_fp);
            }
            let alts: [u32; 4] = self.scheme.all_indices(g, out_fp);
            let own: u32 = g / self.seg;
            proof {
                assert(alts@.take(sch.degree() as int) =~= model::alternates(sch, g, out_fp));
                assert forall|j: int| 0 <= j < sch.degree() implies (#[trigger] alts@[j])
                    < sch.degree() * sch.segment() by {
                    assert(model::alternates(sch, g, out_fp)[j] == alts@[j]);
                }
                model::lemma_first_place(
                    sch,
                    next,
                    b,
                    model::alternates(sch, g, out_fp),
                    own as int,
                    0,
                );
            }
            match self.find_place(&alts, own as usize) {
                Some(y) => {
                    proof {
                        let i = choose|i: int|
                            0 <= i < model::alternates(sch, g, out_fp).len() && i != own && (
                            #[trigger] model::alternates(sch, g, out_fp)[i]) == y as int / b;
                        assert(model::alternates(sch, g, out_fp)[i] == alts@[i]);
                    }
                    let ghost seen = touched@;
                    self.put(y, out_fp, Some(out_val));
                    touched.push((y / (self.b as usize)) as u32);
                    proof {
                        assert forall|i: int| 0 <= i < touched@.len() implies (
                        #[trigger] touched@[i]) < sch.degree() * sch.segment() by {
                            if i < seen.len() {
                                assert(touched@[i] == seen[i]);
                            }
                        }
                    }
                    return Some(touched);
                },
                None => {},
            }
            let i: u32 = self.rng.next_u32() % (self.k - 1);
            let other: u32 = if i < own {
                i
            } else {
                i + 1
            };
            proof {
                assert(self.cells() =~= next);
                assert(model::alternates(sch, g, out_fp)[other as int] == alts@[other as int]);
                assert(model::is_full(next, b, alts@[other as int] as int));
            }
            g = alts[other as usize];
            cur = out_fp;
            val = out_val;
            left = left - 1;
        }
        while trace.len() > 0
            invariant
                self.wf(),
                self.same_setup(old_map),
                self.stream_pos() == whole.pos,
                self.cells().len() == c0.len(),
                undone(self.cells(), trace@) == c0,
                restorable(self.params, c0.len(), trace@),
            decreases trace@.len(),
        {
            let ghost trace0 = trace@;
            let ghost cells = self.cells();
            match trace.pop() {
                Some((x, fp, v)) => {
                    proof {
                        let last = trace0[trace0.len() - 1];
                        assert(last == (x, fp, v));
                        assert(trace@ =~= trace0.drop_last());
                    }
                    self.put(x, fp, v);
                    proof {
                        assert(restorable(self.params, c0.len(), trace@)) by {
                            assert forall|i: int| 0 <= i < trace@.len() implies {
                                let t = #[trigger] trace@[i];
                                &&& t.0 < c0.len()
                                &&& t.1 == 0 <==> t.2 is None
                                &&& t.1 < vstd::arithmetic::power2::pow2(
                                    self.params.fingerprint_bits as nat,
                                )
                                &&& t.2 is Some ==> t.2->0@.len() == self.params.value_len
                            } by {
                                assert(trace@[i] == trace0[i]);
                            }
                        }
                    }
                },
                None => {},
            }
        }
        None
    }

    /// Inserts a pair and hands out the rows of the touched buckets.
    ///
    /// Fails where the value has the wrong length, where one of the key's candidate buckets
    /// holds the pair already, and where no room is found; a map that fails to insert is left
    /// as it was.
    pub fn insert(&mut self, key: &[u8], value: &[u8]) -> (r: Result<UpdateBatch, MapError>)
        requires
            old(self).wf(),
        ensures
            final(self).wf(),
            final(self).same_setup(*old(self)),
            final(self).cells() == old(self).insertion(key@, value@).cells,
            final(self).stream_pos() == old(self).insertion(key@, value@).pos,
            match old(self).insertion(key@, value@).error {
                Some(e) => r == Err::<UpdateBatch, MapError>(e),
                None => r is Ok && are_rows(
                    r->Ok_0.rows@,
                    old(self).spec_params(),
                    old(self).spec_b() as int,
                    final(self).cells(),
                    model::last_touches(
                        old(self).insertion(key@, value@).touched,
                        old(self).insertion(key@, value@).touched.len() as int,
                    ),
                ),
            },
    {
        let ghost sch = self.scheme;
        let ghost b = self.b as int;
        let ghost fp_bits = self.params.fingerprint_bits;
        if value.len() != self.params.value_len as usize {
            return Err(MapError::ValueLength);
        }
        let (tag, buckets): (u32, [u32; 4]) = self.lookup_candidates(key);
        proof {
            sch.lemma_shape();
            sch.lemma_candidates(key@, fp_bits);
            model::lemma_candidates(sch, key@, fp_bits);
            assert forall|j: int| 0 <= j < sch.degree() implies (#[trigger] buckets@[j])
                < sch.degree() * sch.segment() by {
                assert(self.buckets_of(key@)[j] == buckets@[j]);
            }
        }
        if self.holds_pair(&buckets, tag, value) {
            return Err(MapError::Duplicate);
        }
        proof {
            model::lemma_first_place(sch, self.cells(), b, self.buckets_of(key@), 4, 0);
        }
        match self.find_place(&buckets, 4) {
            Some(y) => {
                proof {
                    let i = choose|i: int|
                        0 <= i < self.buckets_of(key@).len() && i != 4 && (
                        #[trigger] self.buckets_of(key@)[i]) == y as int / b;
                    assert(self.buckets_of(key@)[i] == buckets@[i]);
                }
                self.put(y, tag, Some(copy_bytes(value)));
                let mut touched: Vec<u32> = Vec::new();
                touched.push((y / (self.b as usize)) as u32);
                proof {
                    assert(touched@ =~= seq![(y as int / b) as u32]);
                }
                return Ok(self.collapse_trace_to_batch(touched.as_slice()));
            },
            None => {},
        }
        proof {
            assert forall|j: int| 0 <= j < sch.degree() implies {
                &&& (#[trigger] buckets@[j]) < sch.degree() * sch.segment()
                &&& model::is_full(self.cells(), b, buckets@[j] as int)
            } by {
                assert(self.buckets_of(key@)[j] == buckets@[j]);
            }
            let start = crate::backend::prg::keystream_word(
                self.stream_seed(),
                self.stream_pos(),
            ) as int % sch.degree() as int;
            assert(self.buckets_of(key@)[start] == buckets@[start]);
        }
        match self.kick(&buckets, tag, value) {
            Some(touched) => Ok(self.collapse_trace_to_batch(touched.as_slice())),
            None => Err(MapError::TableFull),
        }
    }

    /// Overwrites the value of the key's slot and hands out its bucket's row.
    pub fn update_value(&mut self, key: &[u8], new_value: &[u8]) -> (r: Result<
        UpdateBatch,
        MapError,
    >)
        requires
            old(self).wf(),
        ensures
            final(self).wf(),
            final(self).same_setup(*old(self)),
            final(self).stream_pos() == old(self).stream_pos(),
            new_value@.len() != old(self).spec_params().value_len ==> r == Err::<
                UpdateBatch,
                MapError,
            >(MapError::ValueLength) && final(self).cells() == old(self).cells(),
            new_value@.len() == old(self).spec_params().value_len ==> match old(self).place_of(
                key@,
            ) {
                Some(y) => {
                    &&& final(self).cells() == old(self).cells().update(
                        y,
                        Some((old(self).tag_of(key@), new_value@)),
                    )
                    &&& r is Ok
                    &&& are_rows(
                        r->Ok_0.rows@,
                        old(self).spec_params(),
                        old(self).spec_b() as int,
                        final(self).cells(),
                        seq![(y / old(self).spec_b() as int) as u32],
                    )
                },
                None => r == Err::<UpdateBatch, MapError>(MapError::NotFound)
                    && final(self).cells() == old(self).cells(),
            },
    {
        if new_value.len() != self.params.value_len as usize {
            return Err(MapError::ValueLength);
        }
        let (tag, buckets): (u32, [u32; 4]) = self.lookup_candidates(key);
        proof {
            self.lemma_buckets(key@, tag, buckets);
        }
        match self.find_slot(&buckets, tag) {
            Some(y) => {
                self.put(y, tag, Some(copy_bytes(new_value)));
                Ok(self.one_row(y))
            },
            None => Err(MapError::NotFound),
        }
    }

    /// Clears the key's slot and hands out its bucket's row.
    pub fn delete(&mut self, key: &[u8]) -> (r: Result<UpdateBatch, MapError>)
        requires
            old(self).wf(),
        ensures
            final(self).wf(),
            final(self).same_setup(*old(self)),
            final(self).stream_pos() == old(self).stream_pos(),
            match old(self).place_of(key@) {
                Some(y) => {
                    &&& final(self).cells() == old(self).cells().update(y, None)
                    &&& r is Ok
                    &&& are_rows(
                        r->Ok_0.rows@,
                        old(self).spec_params(),
                        old(self).spec_b() as int,
                        final(self).cells(),
                        seq![(y / old(self).spec_b() as int) as u32],
                    )
                },
                None => r == Err::<UpdateBatch, MapError>(MapError::NotFound)
                    && final(self).cells() == old(self).cells(),
            },
    {
        let (tag, buckets): (u32, [u32; 4]) = self.lookup_candidates(key);
        proof {
            self.lemma_buckets(key@, tag, buckets);
        }
        match self.find_slot(&buckets, tag) {
            Some(y) => {
                proof {
                    vstd::arithmetic::power2::lemma_pow2_pos(self.params.fingerprint_bits as nat);
                }
                self.put(y, 0, None);
                Ok(self.one_row(y))
            },
            None => Err(MapError::NotFound),
        }
    }

    /// What a key's candidates are good for.
    proof fn lemma_buckets(self, key: Seq<u8>, tag: u32, buckets: [u32; 4])
        requires
            self.wf(),
            tag == self.tag_of(key),
            buckets@.take(self.spec_params().arity.spec_degree() as int) == self.buckets_of(key),
        ensures
            0 < tag < vstd::arithmetic::power2::pow2(self.spec_params().fingerprint_bits as nat),
            forall|j: int|
                0 <= j < self.spec_scheme().degree() ==> (#[trigger] buckets@[j])
                    < self.spec_scheme().degree() * self.spec_scheme().segment(),
    {
        let sch = self.scheme;
        sch.lemma_shape();
        sch.lemma_candidates(key, self.params.fingerprint_bits);
        model::lemma_candidates(sch, key, self.params.fingerprint_bits);
        assert forall|j: int| 0 <= j < sch.degree() implies (#[trigger] buckets@[j])
            < sch.degree() * sch.segment() by {
            assert(self.buckets_of(key)[j] == buckets@[j]);
        }
    }

    /// The row of the bucket in which place `y` lies.
    fn one_row(&self, y: usize) -> (batch: UpdateBatch)
        requires
            self.wf(),
            (y as int / self.spec_b() as int) < self.spec_scheme().degree()
                * self.spec_scheme().segment(),
        ensures
            are_rows(
                batch.rows@,
                self.spec_params(),
                self.spec_b() as int,
                self.cells(),
                seq![(y as int / self.spec_b() as int) as u32],
            ),
    {
        proof {
            self.scheme.lemma_shape();
        }
        let mut rows: Vec<PerSegmentRow> = Vec::new();
        rows.push(self.message_of((y / (self.b as usize)) as u32));
        UpdateBatch { rows }
    }
}

/// Whether two byte strings are equal.
fn bytes_equal(a: &[u8], b: &[u8]) -> (r: bool)
    ensures
        r == (a@ == b@),
{
    if a.len() != b.len() {
        return false;
    }
    let mut i: usize = 0;
    while i < a.len()
        invariant
            i <= a@.len() == b@.len(),
            forall|x: int| 0 <= x < i ==> a@[x] == b@[x],
        decreases a@.len() - i,
    {
        if a[i] != b[i] {
            return false;
        }
        i = i + 1;
    }
    proof {
        assert(a@ =~= b@);
    }
    true
}

} // verus!
