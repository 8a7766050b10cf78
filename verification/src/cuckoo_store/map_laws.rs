//! What a map does with a pair, where it looks for a key, and what its rows hold.
use vstd::arithmetic::div_mod::*;
use vstd::prelude::*;

use crate::cuckoo_store;
use crate::cuckoo_store::insertion_laws;
use crate::cuckoo_store::insertion_laws::Attempt;
use crate::cuckoo_store::model::Cell;
use crate::cuckoo_store::row;
use crate::cuckoo_store::{PerSegmentRow, SegmentedCuckooMap};
use crate::fingerprint;
use crate::hash::IndexScheme;
use crate::lwe;
use crate::matrix::Matrix;
use crate::params::FilterParams;

verus! {

/// The attempt to insert a pair into a map.
pub open spec fn attempt<S: IndexScheme>(
    map: SegmentedCuckooMap<S>,
    key: Seq<u8>,
    value: Seq<u8>,
) -> Attempt<S> {
    Attempt {
        sch: map.spec_scheme(),
        b: map.spec_b() as int,
        fp_bits: map.spec_params().fingerprint_bits,
        value_len: map.spec_params().value_len,
        max_kicks: map.spec_max_kicks(),
        seed: map.stream_seed(),
        pos: map.stream_pos(),
        cells: map.cells(),
        key,
        value,
    }
}

/// An insertion into a map is an attempt with all that the map was made with: its scheme, its
/// slots per bucket, its widths, its kicks and its key stream.
pub proof fn law_map_insertion<S: IndexScheme>(
    map: SegmentedCuckooMap<S>,
    key: Seq<u8>,
    value: Seq<u8>,
)
    requires
        map.wf(),
    ensures
        insertion_laws::sound(attempt(map, key, value)),
        map.insertion(key, value) == insertion_laws::outcome(attempt(map, key, value)),
{
}

/// Slot `s` of the key's candidate bucket `j` holds its fingerprint.
pub open spec fn matches_at<S: IndexScheme>(
    map: SegmentedCuckooMap<S>,
    key: Seq<u8>,
    j: int,
    s: int,
) -> bool {
    let fp_bits = map.spec_params().fingerprint_bits;
    let sch = map.spec_scheme();
    let cell = map.cells()[sch.index_of(key, fp_bits, j) * map.spec_b() + s];
    &&& 0 <= j < sch.degree()
    &&& 0 <= s < map.spec_b()
    &&& cell is Some
    &&& (cell->0).0 == sch.tag_of(key, fp_bits)
}

/// A map looks for a key in its candidate buckets, in the order of the segments and of the
/// slots, and finds the first slot that holds its fingerprint; it finds none only where there
/// is none.
pub proof fn law_map_lookup<S: IndexScheme>(
    map: SegmentedCuckooMap<S>,
    key: Seq<u8>,
    j: int,
    s: int,
)
    requires
        map.wf(),
    ensures
        matches_at(map, key, j, s) && (forall|i: int, t: int|
            (i < j || (i == j && t < s)) ==> !#[trigger] matches_at(map, key, i, t))
            ==> map.place_of(key) == Some(
            map.spec_scheme().index_of(key, map.spec_params().fingerprint_bits, j) * map.spec_b()
                + s,
        ),
        (forall|i: int, t: int| !#[trigger] matches_at(map, key, i, t)) ==> map.place_of(key) is None,
{
    let fp_bits = map.spec_params().fingerprint_bits;
    let sch = map.spec_scheme();
    let b = map.spec_b() as int;
    let cells = map.cells();
    let tag = sch.tag_of(key, fp_bits);
    if matches_at(map, key, j, s) && (forall|i: int, t: int|
        (i < j || (i == j && t < s)) ==> !#[trigger] matches_at(map, key, i, t)) {
        assert forall|i: int, t: int| 0 <= i < j && 0 <= t < b implies !((
        #[trigger] cells[sch.index_of(key, fp_bits, i) * b + t]) is Some && (cells[sch.index_of(
            key,
            fp_bits,
            i,
        ) * b + t]->0).0 == tag) by {
            assert(!matches_at(map, key, i, t));
        }
        assert forall|t: int| 0 <= t < s implies !((#[trigger] cells[sch.index_of(key, fp_bits, j)
            * b + t]) is Some && (cells[sch.index_of(key, fp_bits, j) * b + t]->0).0 == tag) by {
            assert(!matches_at(map, key, j, t));
        }
        insertion_laws::law_first_match_is_found(sch, b, fp_bits, cells, key, j, s);
    }
    if forall|i: int, t: int| !#[trigger] matches_at(map, key, i, t) {
        assert forall|i: int, t: int| 0 <= i < sch.degree() && 0 <= t < b implies !((
        #[trigger] cells[sch.index_of(key, fp_bits, i) * b + t]) is Some && (cells[sch.index_of(
            key,
            fp_bits,
            i,
        ) * b + t]->0).0 == tag) by {
            assert(!matches_at(map, key, i, t));
        }
        insertion_laws::law_no_match_is_not_found(sch, b, fp_bits, cells, key);
    }
}

/// The elements of a row, slot by slot: those of the fingerprint and then those of the value
/// where the slot is taken, and zeros where it is empty.
pub proof fn law_row_elements(
    params: FilterParams,
    b: int,
    cells: Seq<Cell>,
    g: int,
    s: int,
    o: int,
)
    requires
        0 <= s < b,
        0 <= o < params.spec_fp_elems() + params.row_elems,
    ensures
        ({
            let f = params.spec_fp_elems();
            let n = f + params.row_elems;
            let r = row::bucket_row(params, b, cells, g);
            &&& r.len() == b * n
            &&& r[s * n + o] == match cells[g * b + s] {
                None => 0,
                Some(e) => if o < f {
                    fingerprint::fp_chunk(e.0, params.fingerprint_bits, params.mat_elem_bit_len, o)
                } else {
                    lwe::packed(e.1, params)[o - f]
                },
            }
        }),
{
    let n = params.spec_fp_elems() + params.row_elems;
    lemma_fundamental_div_mod_converse(s * n + o, n, s, o);
    assert(0 <= s * n && s * n + o < b * n && 0 <= b * n) by (nonlinear_arith)
        requires
            0 <= s,
            s + 1 <= b,
            0 <= o < n,
    ;
}

/// The row of a bucket depends on the slots of that bucket alone.
pub proof fn law_row_is_local(params: FilterParams, b: int, x: Seq<Cell>, y: Seq<Cell>, g: int)
    requires
        b > 0,
        params.spec_fp_elems() + params.row_elems > 0,
        forall|s: int| 0 <= s < b ==> #[trigger] x[g * b + s] == y[g * b + s],
    ensures
        row::bucket_row(params, b, x, g) == row::bucket_row(params, b, y, g),
{
    let n = params.spec_fp_elems() + params.row_elems;
    let p = row::bucket_row(params, b, x, g);
    let q = row::bucket_row(params, b, y, g);
    assert forall|i: int| 0 <= i < b * n implies p[i] == q[i] by {
        let s = i / n;
        lemma_fundamental_div_mod(i, n);
        lemma_mod_bound(i, n);
        lemma_div_pos_is_pos(i, n);
        assert(s < b) by (nonlinear_arith)
            requires
                n * s <= i,
                i < b * n,
                n > 0,
        ;
        assert(x[g * b + s] == y[g * b + s]);
    }
    assert(p =~= q);
}

/// A row message names its bucket by segment and place, and carries the bucket's row.
pub proof fn law_row_message(
    r: PerSegmentRow,
    params: FilterParams,
    b: int,
    cells: Seq<Cell>,
    g: u32,
)
    requires
        cuckoo_store::is_row(r, params, b, cells, g),
        params.spec_seg() > 0,
    ensures
        r.segment_idx * params.spec_seg() + r.row_local_idx == g,
        r.row_local_idx < params.spec_seg(),
        r.new_payload@ == row::bucket_row(params, b, cells, g as int),
{
    let seg = params.spec_seg() as int;
    lemma_fundamental_div_mod(g as int, seg);
    lemma_mod_bound(g as int, seg);
    vstd::arithmetic::mul::lemma_mul_is_commutative(r.segment_idx as int, seg);
}

/// The matrix of a segment has one row per bucket of the segment, and every row is that of its
/// bucket.
pub proof fn law_segment_matrix<S: IndexScheme>(
    map: SegmentedCuckooMap<S>,
    m: Matrix,
    j: int,
    l: int,
    c: int,
)
    requires
        map.wf(),
        map.is_matrix(m, j),
        0 <= l < map.spec_params().spec_seg(),
        0 <= c < m.spec_cols(),
    ensures
        m.spec_rows() == map.spec_params().spec_seg(),
        m.spec_cols() == map.spec_b() * (map.spec_params().spec_fp_elems()
            + map.spec_params().row_elems),
        m.at(l, c) == row::bucket_row(
            map.spec_params(),
            map.spec_b() as int,
            map.cells(),
            j * map.spec_params().spec_seg() + l,
        )[c],
{
    let w = m.spec_cols() as int;
    assert(m.spec_row(l) == row::bucket_row(
        map.spec_params(),
        map.spec_b() as int,
        map.cells(),
        j * map.spec_params().spec_seg() + l,
    ));
    crate::arith::lemma_cell_row(l, m.spec_rows() as int, w);
    assert(m.spec_row(l)[c] == m.at(l, c));
}

/// Rows are the same where bucket and elements are the same, and only there; the rows of a batch
/// are those of its buckets, one for each.
pub proof fn law_same_rows(
    r: PerSegmentRow,
    s: PerSegmentRow,
    rows: Seq<PerSegmentRow>,
    params: FilterParams,
    b: int,
    cells: Seq<Cell>,
    buckets: Seq<u32>,
)
    ensures
        cuckoo_store::same_row(r, s) <==> r.segment_idx == s.segment_idx && r.row_local_idx
            == s.row_local_idx && r.new_payload@ == s.new_payload@,
        cuckoo_store::are_rows(rows, params, b, cells, buckets) <==> rows.len() == buckets.len()
            && forall|i: int|
            0 <= i < rows.len() ==> cuckoo_store::is_row(
                #[trigger] rows[i],
                params,
                b,
                cells,
                buckets[i],
            ),
{
}

/// Maps of one setup agree in everything but their slots and their place in the key stream.
pub proof fn law_same_setup<S: IndexScheme>(x: SegmentedCuckooMap<S>, y: SegmentedCuckooMap<S>)
    ensures
        x.same_setup(y) <==> x.spec_scheme() == y.spec_scheme() && x.spec_params()
            == y.spec_params() && x.spec_b() == y.spec_b() && x.spec_max_kicks()
            == y.spec_max_kicks() && x.stream_seed() == y.stream_seed(),
{
}

/// A key's candidates and its fingerprint are those of the map's scheme, for the width that the
/// parameters give fingerprints; and the matrices of a map are those of all its segments.
pub proof fn law_map_candidates<S: IndexScheme>(
    map: SegmentedCuckooMap<S>,
    key: Seq<u8>,
    mats: Seq<Matrix>,
    j: int,
)
    requires
        map.wf(),
        0 <= j < map.spec_params().arity.spec_degree(),
    ensures
        map.buckets_of(key).len() == map.spec_params().arity.spec_degree(),
        map.buckets_of(key)[j] == map.spec_scheme().index_of(
            key,
            map.spec_params().fingerprint_bits,
            j,
        ),
        map.tag_of(key) == map.spec_scheme().tag_of(key, map.spec_params().fingerprint_bits),
        map.are_matrices(mats) ==> mats.len() == map.spec_params().arity.spec_degree()
            && map.is_matrix(mats[j], j),
{
}

} // verus!
