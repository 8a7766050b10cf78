//! What encoded parameters, matrices, batches and hints come back as.
use vstd::bytes::*;
use vstd::prelude::*;

use crate::matrix::Matrix;
use crate::params;
use crate::params::{Arity, FilterParams};
use crate::params_laws;
use crate::serialization;
use crate::serialization::SerdeError;

verus! {

// ---------------------------------------------------------------- numbers
/// Numbers stand one after another, four bytes each, least significant byte first.
pub proof fn law_numbers_in_order(words: Seq<u32>, i: int)
    requires
        0 <= i < words.len(),
    ensures
        serialization::words_bytes(words).len() == 4 * words.len(),
        serialization::words_bytes(words).subrange(4 * i, 4 * i + 4) == spec_u32_to_le_bytes(
            words[i],
        ),
    decreases words.len(),
{
    serialization::lemma_words_len(words);
    serialization::lemma_words_len(words.drop_last());
    lemma_auto_spec_u32_to_from_le_bytes();
    let bytes = serialization::words_bytes(words);
    let init = serialization::words_bytes(words.drop_last());
    if i < words.len() - 1 {
        law_numbers_in_order(words.drop_last(), i);
        assert(bytes.subrange(4 * i, 4 * i + 4) =~= init.subrange(4 * i, 4 * i + 4));
    } else {
        assert(bytes.subrange(4 * i, 4 * i + 4) =~= spec_u32_to_le_bytes(words.last()));
    }
}

/// A number is read from the four bytes at its place.
pub proof fn law_number_is_read_back(head: Seq<u8>, x: u32, tail: Seq<u8>)
    ensures
        serialization::u32_at(head + spec_u32_to_le_bytes(x) + tail, head.len() as int) == x,
{
    lemma_auto_spec_u32_to_from_le_bytes();
    let all = head + spec_u32_to_le_bytes(x) + tail;
    assert(all.subrange(head.len() as int, head.len() as int + 4) =~= spec_u32_to_le_bytes(x));
}

// ---------------------------------------------------------------- parameters
/// The arity that a byte stands for.
pub open spec fn arities() -> Seq<Arity> {
    seq![
        Arity::Standard2,
        Arity::Segmented2,
        Arity::Standard3,
        Arity::Segmented3,
        Arity::Standard4,
        Arity::Segmented4,
    ]
}

/// Encoded parameters are 20 bytes: `IKPR`, the version 2, the arity, the two widths, and
/// three numbers.
pub proof fn law_params_layout(p: FilterParams)
    ensures
        ({
            let bytes = serialization::params_bytes(p);
            &&& bytes.len() == 20
            &&& bytes.take(5) == seq![73u8, 75u8, 80u8, 82u8, 2u8]
            &&& 0 <= bytes[5] < 6
            &&& arities()[bytes[5] as int] == p.arity
            &&& bytes[6] == p.fingerprint_bits % 256
            &&& bytes[7] == p.mat_elem_bit_len % 256
            &&& bytes.subrange(8, 12) == spec_u32_to_le_bytes(p.num_buckets)
            &&& bytes.subrange(12, 16) == spec_u32_to_le_bytes(p.row_elems)
            &&& bytes.subrange(16, 20) == spec_u32_to_le_bytes(p.value_len)
        }),
{
    let words = seq![p.num_buckets, p.row_elems, p.value_len];
    let tail = serialization::words_bytes(words);
    let bytes = serialization::params_bytes(p);
    law_numbers_in_order(words, 0);
    law_numbers_in_order(words, 1);
    law_numbers_in_order(words, 2);
    assert(bytes.take(5) =~= seq![73u8, 75u8, 80u8, 82u8, 2u8]);
    assert(bytes.subrange(8, 12) =~= tail.subrange(0, 4));
    assert(bytes.subrange(12, 16) =~= tail.subrange(4, 8));
    assert(bytes.subrange(16, 20) =~= tail.subrange(8, 12));
}

/// Parsing succeeds on every 20 bytes or more that start with `IKPR` and the version 2, have
/// an arity below 6, a fingerprint width of 1 to 32, an element width of 1 to 31 and three
/// numbers that are not zero; it gives what they say. On all others it fails with the first
/// of these conditions that is broken.
pub proof fn law_params_parsing(bytes: Seq<u8>)
    ensures
        ({
            let r = serialization::parsed_params(bytes);
            let magic = bytes[0] == 73 && bytes[1] == 75 && bytes[2] == 80 && bytes[3] == 82;
            let n = spec_u32_from_le_bytes(bytes.subrange(8, 12));
            let e = spec_u32_from_le_bytes(bytes.subrange(12, 16));
            let v = spec_u32_from_le_bytes(bytes.subrange(16, 20));
            let ranges = 1 <= bytes[6] <= 32 && 1 <= bytes[7] <= 31 && n != 0 && e != 0 && v != 0;
            &&& bytes.len() < 20 ==> r == Err::<FilterParams, SerdeError>(SerdeError::TooShort)
            &&& bytes.len() >= 20 && !magic ==> r == Err::<FilterParams, SerdeError>(
                SerdeError::BadMagic,
            )
            &&& bytes.len() >= 20 && magic && bytes[4] != 2 ==> r == Err::<
                FilterParams,
                SerdeError,
            >(SerdeError::BadVersion)
            &&& bytes.len() >= 20 && magic && bytes[4] == 2 && bytes[5] >= 6 ==> r == Err::<
                FilterParams,
                SerdeError,
            >(SerdeError::BadArity)
            &&& bytes.len() >= 20 && magic && bytes[4] == 2 && bytes[5] < 6 && !ranges ==> r
                == Err::<FilterParams, SerdeError>(SerdeError::BadParams)
            &&& bytes.len() >= 20 && magic && bytes[4] == 2 && bytes[5] < 6 && ranges ==> r == Ok::<
                FilterParams,
                SerdeError,
            >(
                FilterParams {
                    arity: arities()[bytes[5] as int],
                    num_buckets: n,
                    fingerprint_bits: bytes[6] as u32,
                    row_elems: e,
                    mat_elem_bit_len: bytes[7] as u32,
                    value_len: v,
                },
            )
        }),
{
    let m = seq![73u8, 75u8, 80u8, 82u8];
    let t = bytes.take(4);
    if bytes.len() >= 20 {
        assert(t[0] == bytes[0] && t[1] == bytes[1] && t[2] == bytes[2] && t[3] == bytes[3]);
        assert(m[0] == 73 && m[1] == 75 && m[2] == 80 && m[3] == 82);
        if bytes[0] == 73 && bytes[1] == 75 && bytes[2] == 80 && bytes[3] == 82 {
            assert(t =~= m);
        }
    }
}

/// Decoding encoded parameters gives them back, for every fingerprint width of 1 to 32, every
/// element width of 1 to 31 and all numbers but zero, whatever follows them.
pub proof fn law_params_come_back(p: FilterParams, tail: Seq<u8>)
    requires
        1 <= p.fingerprint_bits <= 32,
        1 <= p.mat_elem_bit_len <= 31,
        p.num_buckets > 0,
        p.row_elems > 0,
        p.value_len > 0,
    ensures
        serialization::parsed_params(serialization::params_bytes(p) + tail) == Ok::<
            FilterParams,
            SerdeError,
        >(p),
{
    let head = serialization::params_bytes(p);
    let all = head + tail;
    law_params_layout(p);
    law_params_parsing(all);
    lemma_auto_spec_u32_to_from_le_bytes();
    assert(all.subrange(8, 12) =~= head.subrange(8, 12));
    assert(all.subrange(12, 16) =~= head.subrange(12, 16));
    assert(all.subrange(16, 20) =~= head.subrange(16, 20));
    let t = head.take(5);
    let m = seq![73u8, 75u8, 80u8, 82u8, 2u8];
    assert(t[0] == head[0] && t[1] == head[1] && t[2] == head[2] && t[3] == head[3] && t[4]
        == head[4]);
    assert(m[0] == 73 && m[1] == 75 && m[2] == 80 && m[3] == 82 && m[4] == 2);
}

/// Recommended parameters can be sent: decoding their encoding gives them back.
pub proof fn law_recommended_come_back(arity: Arity, num_items: u32, value_len: u32)
    ensures
        params::recommendation(arity, num_items, value_len) matches Ok(p)
            ==> serialization::parsed_params(serialization::params_bytes(p)) == Ok::<
            FilterParams,
            SerdeError,
        >(p),
{
    if let Ok(p) = params::recommendation(arity, num_items, value_len) {
        params::law_recommended_sizes(arity, num_items, value_len);
        params_laws::law_refused_outright(arity, num_items, value_len);
        let k = choose|k: nat| p.spec_seg() == #[trigger] vstd::arithmetic::power2::pow2(k);
        vstd::arithmetic::power2::lemma_pow2_pos(k);
        let d = p.arity.spec_degree() as int;
        let s = p.spec_seg() as int;
        assert(d * s > 0) by (nonlinear_arith)
            requires
                d > 0,
                s > 0,
        ;
        let e = p.row_elems as int;
        let w = p.mat_elem_bit_len as int;
        assert(e > 0) by (nonlinear_arith)
            requires
                e * w >= p.value_len * 8,
                p.value_len > 0,
                e >= 0,
        ;
        law_params_come_back(p, Seq::empty());
        assert(serialization::params_bytes(p) + Seq::<u8>::empty()
            =~= serialization::params_bytes(p));
    }
}

// ---------------------------------------------------------------- matrices
/// What is decoded from an encoded matrix is the matrix, and nothing else is.
pub proof fn law_decoded_matrix(head: Seq<u8>, m: Matrix, tail: Seq<u8>, back: Matrix)
    requires
        m.wf(),
        serialization::is_matrix_at(
            back,
            head + serialization::matrix_bytes(m.spec_rows(), m.spec_cols(), m.spec_elems())
                + tail,
            head.len() as int,
        ),
    ensures
        back.spec_rows() == m.spec_rows(),
        back.spec_cols() == m.spec_cols(),
        back.spec_elems() == m.spec_elems(),
{
    serialization::law_matrix_round_trip(head, m, tail);
}

/// An encoded matrix is its two dimensions and its cells; a part of it is no matrix.
pub proof fn law_matrix_layout(m: Matrix, n: int)
    requires
        m.wf(),
        0 <= n < 8 + 4 * m.spec_elems().len(),
    ensures
        ({
            let bytes = serialization::matrix_bytes(m.spec_rows(), m.spec_cols(), m.spec_elems());
            &&& bytes.len() == 8 + 4 * m.spec_elems().len()
            &&& bytes.subrange(0, 4) == spec_u32_to_le_bytes(m.spec_rows())
            &&& bytes.subrange(4, 8) == spec_u32_to_le_bytes(m.spec_cols())
            &&& forall|i: int|
                0 <= i < m.spec_elems().len() ==> bytes.subrange(8 + 4 * i, 12 + 4 * i)
                    == spec_u32_to_le_bytes(#[trigger] m.spec_elems()[i])
            &&& !serialization::has_matrix(bytes.take(n), 0)
        }),
{
    let dims = seq![m.spec_rows(), m.spec_cols()];
    let elems = m.spec_elems();
    let bytes = serialization::matrix_bytes(m.spec_rows(), m.spec_cols(), elems);
    let first = serialization::words_bytes(dims);
    let rest = serialization::words_bytes(elems);
    law_numbers_in_order(dims, 0);
    law_numbers_in_order(dims, 1);
    serialization::lemma_words_len(elems);
    assert(bytes.subrange(0, 4) =~= first.subrange(0, 4));
    assert(bytes.subrange(4, 8) =~= first.subrange(4, 8));
    assert forall|i: int| 0 <= i < elems.len() implies bytes.subrange(8 + 4 * i, 12 + 4 * i)
        == spec_u32_to_le_bytes(#[trigger] elems[i]) by {
        law_numbers_in_order(elems, i);
        assert(bytes.subrange(8 + 4 * i, 12 + 4 * i) =~= rest.subrange(4 * i, 4 * i + 4));
    }
    if n >= 8 {
        lemma_auto_spec_u32_to_from_le_bytes();
        serialization::law_matrix_round_trip(Seq::empty(), m, Seq::empty());
        assert(Seq::<u8>::empty() + bytes + Seq::<u8>::empty() =~= bytes);
        assert(bytes.take(n).subrange(0, 4) =~= bytes.subrange(0, 4));
        assert(bytes.take(n).subrange(4, 8) =~= bytes.subrange(4, 8));
    }
}

// ---------------------------------------------------------------- batches
/// What is decoded from encoded lists of equal length are the lists.
pub proof fn law_decoded_batch(per_seg: Seq<Vec<u32>>, len: int, back: Seq<Vec<u32>>)
    requires
        0 <= len,
        forall|j: int| 0 <= j < per_seg.len() ==> (#[trigger] per_seg[j])@.len() == len,
        serialization::is_batch(
            back,
            serialization::batch_bytes(per_seg),
            per_seg.len() as int,
            len,
        ),
    ensures
        serialization::batch_bytes(per_seg).len() == 4 * (per_seg.len() * len),
        back.len() == per_seg.len(),
        forall|j: int| 0 <= j < per_seg.len() ==> (#[trigger] back[j])@ == per_seg[j]@,
{
    serialization::law_batch_round_trip(per_seg, len, Seq::empty());
    let bytes = serialization::batch_bytes(per_seg);
    assert(bytes + Seq::<u8>::empty() =~= bytes);
    assert forall|j: int| 0 <= j < per_seg.len() implies (#[trigger] back[j])@ == per_seg[j]@ by {
        assert(per_seg[j]@ == serialization::words_at(bytes, 4 * (j * len), len as nat));
    }
}

/// An encoded batch is the encodings of its lists, one after another.
pub proof fn law_batch_in_order(a: Seq<Vec<u32>>, b: Seq<Vec<u32>>)
    ensures
        serialization::batch_bytes(a + b) == serialization::batch_bytes(a)
            + serialization::batch_bytes(b),
        forall|v: Vec<u32>| #[trigger]
            serialization::batch_bytes(seq![v]) == serialization::words_bytes(v@),
    decreases b.len(),
{
    if b.len() == 0 {
        assert(a + b =~= a);
        assert(serialization::batch_bytes(a + b) =~= serialization::batch_bytes(a)
            + serialization::batch_bytes(b));
    } else {
        law_batch_in_order(a, b.drop_last());
        assert((a + b).drop_last() =~= a + b.drop_last());
        assert(serialization::batch_bytes(a + b) =~= serialization::batch_bytes(a)
            + serialization::batch_bytes(b));
    }
    assert forall|v: Vec<u32>| #[trigger]
        serialization::batch_bytes(seq![v]) == serialization::words_bytes(v@) by {
        assert(seq![v].drop_last() =~= Seq::<Vec<u32>>::empty());
        assert(serialization::batch_bytes(Seq::<Vec<u32>>::empty()) == Seq::<u8>::empty());
        assert(serialization::batch_bytes(seq![v]) =~= serialization::words_bytes(v@));
    }
}

// ---------------------------------------------------------------- hints
/// What is decoded from an encoded list of matrices is the list, and bytes that follow it are
/// not part of it.
pub proof fn law_decoded_hints(hints: Seq<Matrix>, tail: Seq<u8>, back: Seq<Matrix>)
    requires
        forall|j: int| 0 <= j < hints.len() ==> (#[trigger] hints[j]).wf(),
        serialization::are_hints(
            back,
            serialization::hints_bytes(hints) + tail,
            hints.len(),
        ),
    ensures
        back.len() == hints.len(),
        forall|j: int|
            0 <= j < hints.len() ==> {
                &&& (#[trigger] back[j]).spec_rows() == hints[j].spec_rows()
                &&& back[j].spec_cols() == hints[j].spec_cols()
                &&& back[j].spec_elems() == hints[j].spec_elems()
            },
        tail.len() > 0 ==> serialization::after_hints(
            serialization::hints_bytes(hints) + tail,
            hints.len(),
        ) != Some((serialization::hints_bytes(hints) + tail).len() as int),
{
    serialization::law_hints_round_trip(hints, tail);
    let all = serialization::hints_bytes(hints) + tail;
    assert forall|j: int| 0 <= j < hints.len() implies {
        &&& (#[trigger] back[j]).spec_rows() == hints[j].spec_rows()
        &&& back[j].spec_cols() == hints[j].spec_cols()
        &&& back[j].spec_elems() == hints[j].spec_elems()
    } by {
        let at = serialization::after_hints(all, j as nat)->0;
        assert(serialization::is_matrix_at(hints[j], all, at));
        assert(serialization::is_matrix_at(back[j], all, at));
    }
}

/// An encoded list of matrices is the encodings of the matrices, one after another.
pub proof fn law_hints_in_order(a: Seq<Matrix>, m: Matrix)
    ensures
        serialization::hints_bytes(a.push(m)) == serialization::hints_bytes(a)
            + serialization::matrix_bytes(m.spec_rows(), m.spec_cols(), m.spec_elems()),
        serialization::hints_bytes(Seq::<Matrix>::empty()).len() == 0,
{
    assert(a.push(m).drop_last() =~= a);
}

} // verus!
