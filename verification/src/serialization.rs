//! Byte encodings of parameters, matrices, queries and responses.
//!
//! Numbers are little-endian. Parameters take 20 bytes: the magic bytes, the version, the
//! arity, the two widths, and three numbers. A matrix is its number of rows, its number of
//! columns and its cells, row by row. Queries and responses are the residues of all
//! segments, one segment after another.
use vstd::bytes::*;
use vstd::prelude::*;

use crate::matrix::{Matrix, MatrixError};
use crate::params::{Arity, FilterParams};
use crate::text;

verus! {

/// First bytes of encoded parameters: `IKPR`.
pub const MAGIC: [u8; 4] = [73, 75, 80, 82];

/// Version of the encoding.
pub const WIRE_VERSION: u8 = 2;

/// Why bytes cannot be decoded.
#[derive(Debug, Clone, Copy, PartialEq, Eq, Structural)]
pub enum SerdeError {
    /// The buffer does not have the expected length.
    TooShort,
    /// The magic bytes are wrong.
    BadMagic,
    /// The version is unknown.
    BadVersion,
    /// The arity byte is out of range.
    BadArity,
    /// A matrix is malformed.
    BadMatrix(MatrixError),
    /// The parameters are inconsistent.
    BadParams,
}

impl SerdeError {
    /// The text of the error.
    pub open spec fn text(self) -> Seq<char> {
        match self {
            SerdeError::TooShort => "buffer too short"@,
            SerdeError::BadMagic => "missing or wrong magic"@,
            SerdeError::BadVersion => "unknown wire version"@,
            SerdeError::BadArity => "invalid arity byte"@,
            SerdeError::BadMatrix(e) => "matrix error: "@ + e.text(),
            SerdeError::BadParams => "inconsistent FilterParams fields"@,
        }
    }

    /// The text of the error.
    pub fn message(&self) -> (s: String)
        ensures
            s@ == self.text(),
    {
        let s: String = match self {
            SerdeError::TooShort => text::join("buffer too short", ""),
            SerdeError::BadMagic => text::join("missing or wrong magic", ""),
            SerdeError::BadVersion => text::join("unknown wire version", ""),
            SerdeError::BadArity => text::join("invalid arity byte", ""),
            SerdeError::BadMatrix(e) => text::join("matrix error: ", e.message()),
            SerdeError::BadParams => text::join("inconsistent FilterParams fields", ""),
        };
        proof {
            reveal_strlit("");
            assert(s@ =~= self.text());
        }
        s
    }
}

impl From<MatrixError> for SerdeError {
    fn from(e: MatrixError) -> (r: Self) {
        SerdeError::BadMatrix(e)
    }
}

impl vstd::std_specs::convert::FromSpecImpl<MatrixError> for SerdeError {
    open spec fn obeys_from_spec() -> bool {
        true
    }

    open spec fn from_spec(e: MatrixError) -> Self {
        SerdeError::BadMatrix(e)
    }
}

// ---------------------------------------------------------------- numbers
/// The number at place `at`.
pub open spec fn u32_at(bytes: Seq<u8>, at: int) -> u32 {
    spec_u32_from_le_bytes(bytes.subrange(at, at + 4))
}

/// The bytes of a list of numbers.
pub open spec fn words_bytes(words: Seq<u32>) -> Seq<u8>
    decreases words.len(),
{
    if words.len() == 0 {
        Seq::empty()
    } else {
        words_bytes(words.drop_last()) + spec_u32_to_le_bytes(words.last())
    }
}

/// The `n` numbers from place `at` on.
pub open spec fn words_at(bytes: Seq<u8>, at: int, n: nat) -> Seq<u32> {
    Seq::new(n, |i: int| u32_at(bytes, at + 4 * i))
}

pub proof fn lemma_words_len(words: Seq<u32>)
    ensures
        words_bytes(words).len() == 4 * words.len(),
    decreases words.len(),
{
    lemma_auto_spec_u32_to_from_le_bytes();
    if words.len() > 0 {
        lemma_words_len(words.drop_last());
    }
}

/// Reading back the bytes of a list of numbers gives the list.
pub proof fn lemma_words_round_trip(head: Seq<u8>, words: Seq<u32>, tail: Seq<u8>)
    ensures
        words_at(head + words_bytes(words) + tail, head.len() as int, words.len()) == words,
    decreases words.len(),
{
    let all = head + words_bytes(words) + tail;
    lemma_words_len(words);
    lemma_auto_spec_u32_to_from_le_bytes();
    if words.len() > 0 {
        let init = words.drop_last();
        let last = spec_u32_to_le_bytes(words.last());
        lemma_words_len(init);
        lemma_words_round_trip(head, init, last + tail);
        assert(head + words_bytes(init) + (last + tail) =~= all);
        let at = head.len() as int + 4 * init.len();
        assert(all.subrange(at, at + 4) =~= last);
        assert forall|i: int| 0 <= i < words.len() implies words_at(
            all,
            head.len() as int,
            words.len(),
        )[i] == words[i] by {
            if i < init.len() {
                assert(words_at(all, head.len() as int, init.len())[i] == init[i]);
            }
        }
    }
    assert(words_at(all, head.len() as int, words.len()) =~= words);
}

fn push_u32(out: &mut Vec<u8>, x: u32)
    ensures
        final(out)@ == old(out)@ + spec_u32_to_le_bytes(x),
{
    let mut bytes: Vec<u8> = u32_to_le_bytes(x);
    out.append(&mut bytes);
}

fn push_words(out: &mut Vec<u8>, words: &[u32])
    ensures
        final(out)@ == old(out)@ + words_bytes(words@),
{
    let ghost before = out@;
    let mut i: usize = 0;
    proof {
        assert(words@.take(0) =~= Seq::empty());
        assert(out@ =~= before + words_bytes(words@.take(0)));
    }
    while i < words.len()
        invariant
            i <= words@.len(),
            out@ == before + words_bytes(words@.take(i as int)),
        decreases words@.len() - i,
    {
        push_u32(out, words[i]);
        proof {
            assert(words@.take(i as int + 1).drop_last() =~= words@.take(i as int));
            assert(words@.take(i as int + 1).last() == words@[i as int]);
            assert(out@ =~= before + words_bytes(words@.take(i as int + 1)));
        }
        i = i + 1;
    }
    proof {
        assert(words@.take(words@.len() as int) =~= words@);
    }
}

fn read_u32(bytes: &[u8], at: usize) -> (x: u32)
    requires
        at + 4 <= bytes@.len(),
    ensures
        x == u32_at(bytes@, at as int),
{
    assert(bytes.len() == bytes@.len());
    u32_from_le_bytes(vstd::slice::slice_subrange(bytes, at, at + 4))
}

fn read_words(bytes: &[u8], at: usize, n: usize) -> (words: Vec<u32>)
    requires
        at + 4 * n <= bytes@.len(),
    ensures
        words@ == words_at(bytes@, at as int, n as nat),
{
    assert(bytes.len() == bytes@.len());
    let mut words: Vec<u32> = Vec::with_capacity(n);
    let mut i: usize = 0;
    while i < n
        invariant
            i <= n,
            at + 4 * n <= bytes@.len() <= usize::MAX,
            words@.len() == i,
            forall|x: int| 0 <= x < i ==> #[trigger] words@[x] == u32_at(bytes@, at + 4 * x),
        decreases n - i,
    {
        words.push(read_u32(bytes, at + 4 * i));
        i = i + 1;
    }
    proof {
        assert(words@ =~= words_at(bytes@, at as int, n as nat));
    }
    words
}

// ---------------------------------------------------------------- parameters
/// The byte of an arity.
pub open spec fn arity_byte(a: Arity) -> u8 {
    match a {
        Arity::Standard2 => 0,
        Arity::Segmented2 => 1,
        Arity::Standard3 => 2,
        Arity::Segmented3 => 3,
        Arity::Standard4 => 4,
        Arity::Segmented4 => 5,
    }
}

/// The arity of a byte.
pub open spec fn arity_of(b: u8) -> Option<Arity> {
    if b == 0 {
        Some(Arity::Standard2)
    } else if b == 1 {
        Some(Arity::Segmented2)
    } else if b == 2 {
        Some(Arity::Standard3)
    } else if b == 3 {
        Some(Arity::Segmented3)
    } else if b == 4 {
        Some(Arity::Standard4)
    } else if b == 5 {
        Some(Arity::Segmented4)
    } else {
        None
    }
}

fn arity_to_byte(a: Arity) -> (b: u8)
    ensures
        b == arity_byte(a),
{
    match a {
        Arity::Standard2 => 0,
        Arity::Segmented2 => 1,
        Arity::Standard3 => 2,
        Arity::Segmented3 => 3,
        Arity::Standard4 => 4,
        Arity::Segmented4 => 5,
    }
}

fn byte_to_arity(b: u8) -> (a: Option<Arity>)
    ensures
        a == arity_of(b),
{
    match b {
        0 => Some(Arity::Standard2),
        1 => Some(Arity::Segmented2),
        2 => Some(Arity::Standard3),
        3 => Some(Arity::Segmented3),
        4 => Some(Arity::Standard4),
        5 => Some(Arity::Segmented4),
        _ => None,
    }
}

/// The encoding of parameters; the widths are cut to their low bytes.
pub open spec fn params_bytes(p: FilterParams) -> Seq<u8> {
    seq![
        73u8,
        75u8,
        80u8,
        82u8,
        2u8,
        arity_byte(p.arity),
        (p.fingerprint_bits % 256) as u8,
        (p.mat_elem_bit_len % 256) as u8,
    ] + words_bytes(seq![p.num_buckets, p.row_elems, p.value_len])
}

/// Whether the fields are within their ranges.
pub open spec fn fields_ok(p: FilterParams) -> bool {
    &&& 1 <= p.fingerprint_bits <= 32
    &&& 1 <= p.mat_elem_bit_len < 32
    &&& p.num_buckets != 0
    &&& p.row_elems != 0
    &&& p.value_len != 0
}

/// What [`params_from_bytes`] returns.
pub open spec fn parsed_params(bytes: Seq<u8>) -> Result<FilterParams, SerdeError> {
    if bytes.len() < 20 {
        Err(SerdeError::TooShort)
    } else if bytes.take(4) != seq![73u8, 75u8, 80u8, 82u8] {
        Err(SerdeError::BadMagic)
    } else if bytes[4] != 2 {
        Err(SerdeError::BadVersion)
    } else if arity_of(bytes[5]) is None {
        Err(SerdeError::BadArity)
    } else {
        let p = FilterParams {
            arity: arity_of(bytes[5])->0,
            num_buckets: u32_at(bytes, 8),
            fingerprint_bits: bytes[6] as u32,
            row_elems: u32_at(bytes, 12),
            mat_elem_bit_len: bytes[7] as u32,
            value_len: u32_at(bytes, 16),
        };
        if fields_ok(p) {
            Ok(p)
        } else {
            Err(SerdeError::BadParams)
        }
    }
}

/// Encodes parameters in 20 bytes.
pub fn params_to_bytes(params: &FilterParams) -> (out: Vec<u8>)
    ensures
        out@ == params_bytes(*params),
        out@.len() == 20,
{
    let mut out: Vec<u8> = Vec::with_capacity(20);
    out.push(MAGIC[0]);
    out.push(MAGIC[1]);
    out.push(MAGIC[2]);
    out.push(MAGIC[3]);
    out.push(WIRE_VERSION);
    out.push(arity_to_byte(params.arity));
    out.push((params.fingerprint_bits % 256) as u8);
    out.push((params.mat_elem_bit_len % 256) as u8);
    let words: [u32; 3] = [params.num_buckets, params.row_elems, params.value_len];
    push_words(&mut out, vstd::array::array_as_slice(&words));
    proof {
        assert(words@ =~= seq![params.num_buckets, params.row_elems, params.value_len]);
        lemma_words_len(words@);
        assert(out@ =~= params_bytes(*params));
    }
    out
}

/// Decodes parameters from the first 20 bytes.
pub fn params_from_bytes(bytes: &[u8]) -> (r: Result<FilterParams, SerdeError>)
    ensures
        r == parsed_params(bytes@),
{
    if bytes.len() < 20 {
        return Err(SerdeError::TooShort);
    }
    if bytes[0] != MAGIC[0] || bytes[1] != MAGIC[1] || bytes[2] != MAGIC[2] || bytes[3]
        != MAGIC[3] {
        proof {
            let m = seq![73u8, 75u8, 80u8, 82u8];
            let t = bytes@.take(4);
            assert(t[0] == bytes@[0] && t[1] == bytes@[1] && t[2] == bytes@[2] && t[3]
                == bytes@[3]);
            assert(m[0] == 73 && m[1] == 75 && m[2] == 80 && m[3] == 82);
        }
        return Err(SerdeError::BadMagic);
    }
    proof {
        assert(bytes@.take(4) =~= seq![73u8, 75u8, 80u8, 82u8]);
    }
    if bytes[4] != WIRE_VERSION {
        return Err(SerdeError::BadVersion);
    }
    let arity: Arity = match byte_to_arity(bytes[5]) {
        Some(a) => a,
        None => {
            return Err(SerdeError::BadArity);
        },
    };
    let fingerprint_bits: u32 = bytes[6] as u32;
    let mat_elem_bit_len: u32 = bytes[7] as u32;
    let num_buckets: u32 = read_u32(bytes, 8);
    let row_elems: u32 = read_u32(bytes, 12);
    let value_len: u32 = read_u32(bytes, 16);
    if fingerprint_bits == 0 || fingerprint_bits > 32 || mat_elem_bit_len == 0
        || mat_elem_bit_len >= 32 || num_buckets == 0 || row_elems == 0 || value_len == 0 {
        return Err(SerdeError::BadParams);
    }
    Ok(
        FilterParams {
            arity,
            num_buckets,
            fingerprint_bits,
            row_elems,
            mat_elem_bit_len,
            value_len,
        },
    )
}

/// Decoding encoded parameters gives them back.
pub proof fn law_params_round_trip(p: FilterParams)
    requires
        fields_ok(p),
    ensures
        parsed_params(params_bytes(p)) == Ok::<FilterParams, SerdeError>(p),
{
    let head = seq![
        73u8,
        75u8,
        80u8,
        82u8,
        2u8,
        arity_byte(p.arity),
        (p.fingerprint_bits % 256) as u8,
        (p.mat_elem_bit_len % 256) as u8,
    ];
    let words = seq![p.num_buckets, p.row_elems, p.value_len];
    let all = params_bytes(p);
    lemma_words_len(words);
    lemma_words_round_trip(head, words, Seq::empty());
    assert(head + words_bytes(words) + Seq::<u8>::empty() =~= all);
    let back = words_at(all, 8, 3);
    assert(back[0] == words[0] && back[1] == words[1] && back[2] == words[2]);
    assert(all.take(4) =~= seq![73u8, 75u8, 80u8, 82u8]);
}

// ---------------------------------------------------------------- matrices
/// The encoding of a matrix.
pub open spec fn matrix_bytes(rows: u32, cols: u32, elems: Seq<u32>) -> Seq<u8> {
    words_bytes(seq![rows, cols]) + words_bytes(elems)
}

/// The length of the encoded matrix that starts at `at`.
pub open spec fn blob_len(bytes: Seq<u8>, at: int) -> int {
    8 + 4 * (u32_at(bytes, at) * u32_at(bytes, at + 4))
}

/// Whether a whole matrix is encoded at `at`.
pub open spec fn has_matrix(bytes: Seq<u8>, at: int) -> bool {
    &&& at + 8 <= bytes.len()
    &&& at + blob_len(bytes, at) <= bytes.len()
}

/// `m` is the matrix that is encoded at `at`.
pub open spec fn is_matrix_at(m: Matrix, bytes: Seq<u8>, at: int) -> bool {
    &&& m.wf()
    &&& m.spec_rows() == u32_at(bytes, at)
    &&& m.spec_cols() == u32_at(bytes, at + 4)
    &&& m.spec_elems() == words_at(
        bytes,
        at + 8,
        (u32_at(bytes, at) * u32_at(bytes, at + 4)) as nat,
    )
}

/// Encodes a matrix.
pub fn matrix_to_bytes(m: &Matrix) -> (out: Vec<u8>)
    ensures
        out@ == matrix_bytes(m.spec_rows(), m.spec_cols(), m.spec_elems()),
{
    let mut out: Vec<u8> = Vec::new();
    let head: [u32; 2] = [m.rows(), m.cols()];
    push_words(&mut out, vstd::array::array_as_slice(&head));
    push_words(&mut out, m.as_slice());
    proof {
        assert(head@ =~= seq![m.spec_rows(), m.spec_cols()]);
        assert(out@ =~= matrix_bytes(m.spec_rows(), m.spec_cols(), m.spec_elems()));
    }
    out
}

/// The length of the encoded matrix that starts at `at`, where it fits the bytes.
fn matrix_len_at(bytes: &[u8], at: usize) -> (n: Option<usize>)
    requires
        at <= bytes@.len(),
    ensures
        n is Some <==> has_matrix(bytes@, at as int),
        n is Some ==> n->0 == blob_len(bytes@, at as int),
{
    assert(bytes.len() == bytes@.len());
    let left: usize = bytes.len() - at;
    if left < 8 {
        return None;
    }
    let rows: u32 = read_u32(bytes, at);
    let cols: u32 = read_u32(bytes, at + 4);
    let cells: usize = match (rows as usize).checked_mul(cols as usize) {
        Some(n) => n,
        None => {
            return None;
        },
    };
    if cells > (left - 8) / 4 {
        return None;
    }
    Some(8 + 4 * cells)
}

/// Decodes the matrix at `at`.
fn matrix_at(bytes: &[u8], at: usize) -> (r: Result<Matrix, SerdeError>)
    requires
        has_matrix(bytes@, at as int),
    ensures
        r is Ok,
        is_matrix_at(r->Ok_0, bytes@, at as int),
{
    assert(bytes.len() == bytes@.len());
    let rows: u32 = read_u32(bytes, at);
    let cols: u32 = read_u32(bytes, at + 4);
    let n: usize = (rows as usize) * (cols as usize);
    let elems: Vec<u32> = read_words(bytes, at + 8, n);
    match Matrix::from_elems(rows, cols, elems) {
        Ok(m) => Ok(m),
        Err(e) => Err(SerdeError::from(e)),
    }
}

/// Decodes a matrix from the first bytes; bytes after it are left alone.
pub fn matrix_from_bytes(bytes: &[u8]) -> (r: Result<Matrix, SerdeError>)
    ensures
        has_matrix(bytes@, 0) ==> r is Ok && is_matrix_at(r->Ok_0, bytes@, 0),
        !has_matrix(bytes@, 0) ==> r == Err::<Matrix, SerdeError>(SerdeError::TooShort),
{
    match matrix_len_at(bytes, 0) {
        Some(_) => matrix_at(bytes, 0),
        None => Err(SerdeError::TooShort),
    }
}

/// Decoding an encoded matrix gives it back, whatever follows it.
pub proof fn law_matrix_round_trip(head: Seq<u8>, m: Matrix, tail: Seq<u8>)
    requires
        m.wf(),
    ensures
        has_matrix(
            head + matrix_bytes(m.spec_rows(), m.spec_cols(), m.spec_elems()) + tail,
            head.len() as int,
        ),
        is_matrix_at(
            m,
            head + matrix_bytes(m.spec_rows(), m.spec_cols(), m.spec_elems()) + tail,
            head.len() as int,
        ),
        blob_len(
            head + matrix_bytes(m.spec_rows(), m.spec_cols(), m.spec_elems()) + tail,
            head.len() as int,
        ) == matrix_bytes(m.spec_rows(), m.spec_cols(), m.spec_elems()).len(),
{
    let rows = m.spec_rows();
    let cols = m.spec_cols();
    let elems = m.spec_elems();
    let dims = seq![rows, cols];
    let blob = matrix_bytes(rows, cols, elems);
    let all = head + blob + tail;
    let at = head.len() as int;
    lemma_words_len(dims);
    lemma_words_len(elems);
    lemma_words_round_trip(head, dims, words_bytes(elems) + tail);
    assert(head + words_bytes(dims) + (words_bytes(elems) + tail) =~= all);
    let back = words_at(all, at, 2);
    assert(back[0] == rows && back[1] == cols);
    lemma_words_round_trip(head + words_bytes(dims), elems, tail);
    assert(head + words_bytes(dims) + words_bytes(elems) + tail =~= all);
}

// ---------------------------------------------------------------- batches
/// The encoding of one list of residues per segment.
pub open spec fn batch_bytes(per_seg: Seq<Vec<u32>>) -> Seq<u8>
    decreases per_seg.len(),
{
    if per_seg.len() == 0 {
        Seq::empty()
    } else {
        batch_bytes(per_seg.drop_last()) + words_bytes(per_seg.last()@)
    }
}

/// `lists` are the `k` lists of `len` numbers that the bytes hold.
pub open spec fn is_batch(lists: Seq<Vec<u32>>, bytes: Seq<u8>, k: int, len: int) -> bool {
    &&& lists.len() == k
    &&& forall|j: int|
        0 <= j < k ==> (#[trigger] lists[j])@ == words_at(bytes, 4 * (j * len), len as nat)
}

fn batch_to_bytes(per_seg: &[Vec<u32>]) -> (out: Vec<u8>)
    ensures
        out@ == batch_bytes(per_seg@),
{
    let mut out: Vec<u8> = Vec::new();
    let mut j: usize = 0;
    proof {
        assert(per_seg@.take(0) =~= Seq::empty());
    }
    while j < per_seg.len()
        invariant
            j <= per_seg@.len(),
            out@ == batch_bytes(per_seg@.take(j as int)),
        decreases per_seg@.len() - j,
    {
        push_words(&mut out, per_seg[j].as_slice());
        proof {
            assert(per_seg@.take(j as int + 1).drop_last() =~= per_seg@.take(j as int));
            assert(per_seg@.take(j as int + 1).last() == per_seg@[j as int]);
        }
        j = j + 1;
    }
    proof {
        assert(per_seg@.take(per_seg@.len() as int) =~= per_seg@);
    }
    out
}

fn batch_from_bytes(bytes: &[u8], k: u32, len: u32) -> (r: Result<Vec<Vec<u32>>, SerdeError>)
    requires
        4 * (k * len) <= usize::MAX,
    ensures
        bytes@.len() == 4 * (k * len) ==> r is Ok && is_batch(
            r->Ok_0@,
            bytes@,
            k as int,
            len as int,
        ),
        bytes@.len() != 4 * (k * len) ==> r == Err::<Vec<Vec<u32>>, SerdeError>(
            SerdeError::TooShort,
        ),
{
    assert(bytes.len() == bytes@.len());
    let n: usize = len as usize;
    let total: usize = (k as usize) * n * 4;
    if bytes.len() != total {
        return Err(SerdeError::TooShort);
    }
    let mut out: Vec<Vec<u32>> = Vec::with_capacity(k as usize);
    let mut j: usize = 0;
    while j < k as usize
        invariant
            j <= k,
            n == len,
            bytes@.len() == 4 * (k * len) <= usize::MAX,
            out@.len() == j,
            forall|x: int|
                0 <= x < j ==> (#[trigger] out@[x])@ == words_at(
                    bytes@,
                    4 * (x * len),
                    len as nat,
                ),
        decreases k - j,
    {
        proof {
            assert((j + 1) * len <= k * len) by (nonlinear_arith)
                requires
                    j + 1 <= k,
                    0 <= len,
            ;
            assert((j + 1) * len == j * len + len) by (nonlinear_arith);
            assert(0 <= j * len) by (nonlinear_arith)
                requires
                    0 <= j,
                    0 <= len,
            ;
        }
        out.push(read_words(bytes, j * n * 4, n));
        j = j + 1;
    }
    Ok(out)
}

/// Encodes the query vectors of all segments.
pub fn batch_query_to_bytes(per_seg: &[Vec<u32>]) -> (out: Vec<u8>)
    ensures
        out@ == batch_bytes(per_seg@),
{
    batch_to_bytes(per_seg)
}

/// Decodes the query vectors of `k` segments of `seg` rows each.
pub fn batch_query_from_bytes(bytes: &[u8], k: u32, seg: u32) -> (r: Result<
    Vec<Vec<u32>>,
    SerdeError,
>)
    requires
        4 * (k * seg) <= usize::MAX,
    ensures
        bytes@.len() == 4 * (k * seg) ==> r is Ok && is_batch(
            r->Ok_0@,
            bytes@,
            k as int,
            seg as int,
        ),
        bytes@.len() != 4 * (k * seg) ==> r == Err::<Vec<Vec<u32>>, SerdeError>(
            SerdeError::TooShort,
        ),
{
    batch_from_bytes(bytes, k, seg)
}

/// Encodes the response vectors of all segments.
pub fn batch_response_to_bytes(per_seg: &[Vec<u32>]) -> (out: Vec<u8>)
    ensures
        out@ == batch_bytes(per_seg@),
{
    batch_to_bytes(per_seg)
}

/// Decodes the response vectors of `k` segments of `row_elems_bucket` columns each.
pub fn batch_response_from_bytes(bytes: &[u8], k: u32, row_elems_bucket: u32) -> (r: Result<
    Vec<Vec<u32>>,
    SerdeError,
>)
    requires
        4 * (k * row_elems_bucket) <= usize::MAX,
    ensures
        bytes@.len() == 4 * (k * row_elems_bucket) ==> r is Ok && is_batch(
            r->Ok_0@,
            bytes@,
            k as int,
            row_elems_bucket as int,
        ),
        bytes@.len() != 4 * (k * row_elems_bucket) ==> r == Err::<Vec<Vec<u32>>, SerdeError>(
            SerdeError::TooShort,
        ),
{
    batch_from_bytes(bytes, k, row_elems_bucket)
}

proof fn lemma_batch_len(per_seg: Seq<Vec<u32>>, len: int)
    requires
        forall|j: int| 0 <= j < per_seg.len() ==> (#[trigger] per_seg[j])@.len() == len,
    ensures
        batch_bytes(per_seg).len() == 4 * (per_seg.len() * len),
    decreases per_seg.len(),
{
    if per_seg.len() == 0 {
        assert(0 * len == 0) by (nonlinear_arith);
    } else {
        let init = per_seg.drop_last();
        assert forall|j: int| 0 <= j < init.len() implies (#[trigger] init[j])@.len() == len by {
            assert(init[j] == per_seg[j]);
        }
        lemma_batch_len(init, len);
        lemma_words_len(per_seg.last()@);
        assert(per_seg[per_seg.len() - 1]@.len() == len);
        assert(per_seg.len() * len == (per_seg.len() - 1) * len + len) by (nonlinear_arith);
    }
}

/// The lists of an encoded batch, read back: where all lists have the same length, the bytes
/// hold exactly these lists.
pub proof fn law_batch_round_trip(per_seg: Seq<Vec<u32>>, len: int, tail: Seq<u8>)
    requires
        0 <= len,
        forall|j: int| 0 <= j < per_seg.len() ==> (#[trigger] per_seg[j])@.len() == len,
    ensures
        batch_bytes(per_seg).len() == 4 * (per_seg.len() * len),
        is_batch(per_seg, batch_bytes(per_seg) + tail, per_seg.len() as int, len),
    decreases per_seg.len(),
{
    lemma_batch_len(per_seg, len);
    if per_seg.len() > 0 {
        let init = per_seg.drop_last();
        let last = per_seg.last()@;
        assert forall|j: int| 0 <= j < init.len() implies (#[trigger] init[j])@.len() == len by {
            assert(init[j] == per_seg[j]);
        }
        let all = batch_bytes(per_seg) + tail;
        law_batch_round_trip(init, len, words_bytes(last) + tail);
        assert(batch_bytes(init) + (words_bytes(last) + tail) =~= all);
        lemma_words_round_trip(batch_bytes(init), last, tail);
        assert(batch_bytes(init) + words_bytes(last) + tail =~= all);
        assert(per_seg[per_seg.len() - 1]@.len() == len);
        assert forall|j: int| 0 <= j < per_seg.len() implies (#[trigger] per_seg[j])@ == words_at(
            all,
            4 * (j * len),
            len as nat,
        ) by {
            if j < init.len() {
                assert(init[j] == per_seg[j]);
                assert(init[j]@ == words_at(all, 4 * (j * len), len as nat));
            } else {
                assert(j == init.len());
            }
        }
    }
}

// ---------------------------------------------------------------- hints
/// The encoding of a list of matrices, one after another.
pub open spec fn hints_bytes(hints: Seq<Matrix>) -> Seq<u8>
    decreases hints.len(),
{
    if hints.len() == 0 {
        Seq::empty()
    } else {
        hints_bytes(hints.drop_last()) + matrix_bytes(
            hints.last().spec_rows(),
            hints.last().spec_cols(),
            hints.last().spec_elems(),
        )
    }
}

/// Where the bytes stand after `k` matrices, if they hold that many.
pub open spec fn after_hints(bytes: Seq<u8>, k: nat) -> Option<int>
    decreases k,
{
    if k == 0 {
        Some(0)
    } else {
        match after_hints(bytes, (k - 1) as nat) {
            Some(at) => if has_matrix(bytes, at) {
                Some(at + blob_len(bytes, at))
            } else {
                None
            },
            None => None,
        }
    }
}

/// `hints` are the `k` matrices that the bytes hold.
pub open spec fn are_hints(hints: Seq<Matrix>, bytes: Seq<u8>, k: nat) -> bool {
    &&& hints.len() == k
    &&& forall|j: int|
        0 <= j < k ==> is_matrix_at(#[trigger] hints[j], bytes, after_hints(bytes, j as nat)->0)
}

/// Encodes a list of matrices, one after another.
pub fn batch_hint_to_bytes(hints: &[Matrix]) -> (out: Vec<u8>)
    ensures
        out@ == hints_bytes(hints@),
{
    let mut out: Vec<u8> = Vec::new();
    let mut j: usize = 0;
    proof {
        assert(hints@.take(0) =~= Seq::empty());
    }
    while j < hints.len()
        invariant
            j <= hints@.len(),
            out@ == hints_bytes(hints@.take(j as int)),
        decreases hints@.len() - j,
    {
        let mut blob: Vec<u8> = matrix_to_bytes(&hints[j]);
        out.append(&mut blob);
        proof {
            assert(hints@.take(j as int + 1).drop_last() =~= hints@.take(j as int));
            assert(hints@.take(j as int + 1).last() == hints@[j as int]);
        }
        j = j + 1;
    }
    proof {
        assert(hints@.take(hints@.len() as int) =~= hints@);
    }
    out
}

/// Fewer matrices are held where more are.
proof fn lemma_after_hints(bytes: Seq<u8>, j: nat, k: nat)
    requires
        j <= k,
        after_hints(bytes, k) is Some,
    ensures
        after_hints(bytes, j) is Some,
    decreases k,
{
    if j < k {
        lemma_after_hints(bytes, j, (k - 1) as nat);
    }
}

/// Decodes exactly `k` matrices; bytes after them are an error.
pub fn batch_hint_from_bytes(bytes: &[u8], k: u32) -> (r: Result<Vec<Matrix>, SerdeError>)
    ensures
        after_hints(bytes@, k as nat) == Some(bytes@.len() as int) ==> r is Ok && are_hints(
            r->Ok_0@,
            bytes@,
            k as nat,
        ),
        after_hints(bytes@, k as nat) != Some(bytes@.len() as int) ==> r == Err::<
            Vec<Matrix>,
            SerdeError,
        >(SerdeError::TooShort),
{
    assert(bytes.len() == bytes@.len());
    let mut cursor: usize = 0;
    let mut out: Vec<Matrix> = Vec::new();
    let mut j: u32 = 0;
    while j < k
        invariant
            j <= k,
            cursor <= bytes@.len() <= usize::MAX,
            after_hints(bytes@, j as nat) == Some(cursor as int),
            are_hints(out@, bytes@, j as nat),
        decreases k - j,
    {
        let blob: usize = match matrix_len_at(bytes, cursor) {
            Some(n) => n,
            None => {
                proof {
                    if after_hints(bytes@, k as nat) is Some {
                        lemma_after_hints(bytes@, (j + 1) as nat, k as nat);
                    }
                }
                return Err(SerdeError::TooShort);
            },
        };
        let m: Matrix = matrix_at(bytes, cursor)?;
        let ghost before = out@;
        out.push(m);
        proof {
            assert forall|x: int| 0 <= x < j + 1 implies is_matrix_at(
                #[trigger] out@[x],
                bytes@,
                after_hints(bytes@, x as nat)->0,
            ) by {
                if x < j {
                    assert(out@[x] == before[x]);
                }
            }
        }
        cursor = cursor + blob;
        j = j + 1;
    }
    if cursor != bytes.len() {
        return Err(SerdeError::TooShort);
    }
    Ok(out)
}

/// Decoding an encoded list of matrices gives the list back.
pub proof fn law_hints_round_trip(hints: Seq<Matrix>, tail: Seq<u8>)
    requires
        forall|j: int| 0 <= j < hints.len() ==> (#[trigger] hints[j]).wf(),
    ensures
        after_hints(hints_bytes(hints) + tail, hints.len()) == Some(
            hints_bytes(hints).len() as int,
        ),
        are_hints(hints, hints_bytes(hints) + tail, hints.len()),
    decreases hints.len(),
{
    if hints.len() > 0 {
        let init = hints.drop_last();
        let last = hints.last();
        let blob = matrix_bytes(last.spec_rows(), last.spec_cols(), last.spec_elems());
        let all = hints_bytes(hints) + tail;
        assert forall|j: int| 0 <= j < init.len() implies (#[trigger] init[j]).wf() by {
            assert(init[j] == hints[j]);
        }
        law_hints_round_trip(init, blob + tail);
        assert(hints_bytes(init) + (blob + tail) =~= all);
        assert(hints[hints.len() - 1].wf());
        law_matrix_round_trip(hints_bytes(init), last, tail);
        assert(hints_bytes(init) + blob + tail =~= all);
        assert forall|j: int| 0 <= j < hints.len() implies is_matrix_at(
            #[trigger] hints[j],
            all,
            after_hints(all, j as nat)->0,
        ) by {
            if j < init.len() {
                assert(init[j] == hints[j]);
            } else {
                assert(j == init.len());
            }
        }
    }
}

} // verus!
