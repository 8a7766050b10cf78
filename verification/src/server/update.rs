//! Row-level updates of the database matrices and their hints.
//!
//! Every segment keeps `H = A * D`: a new row of `D` moves `H` by the matching column of `A`
//! times the difference of the rows.
use vstd::arithmetic::power2::*;
use vstd::prelude::*;

use crate::arith;
use crate::cuckoo_store::PerSegmentRow;
use crate::matrix::{Matrix, MatrixError};
use crate::params::FilterParams;
use crate::text;

verus! {

/// Why an update is refused.
#[derive(Debug, Clone, Copy, PartialEq, Eq, Structural)]
#[non_exhaustive]
pub enum UpdateError {
    /// There is no such segment.
    SegmentOutOfBounds,
    /// The segment has no such row.
    RowIndexOutOfBounds,
    /// The row does not have one element per column.
    ShapeMismatch,
    /// An element is wider than the parameters allow.
    PayloadOutOfRange,
    /// A matrix operation failed.
    Matrix(MatrixError),
}

impl UpdateError {
    /// The text of the error.
    pub open spec fn text(self) -> Seq<char> {
        match self {
            UpdateError::SegmentOutOfBounds => "segment index out of bounds"@,
            UpdateError::RowIndexOutOfBounds => "row_local_idx exceeds segment size"@,
            UpdateError::ShapeMismatch => "new_payload length does not match row_elems_bucket"@,
            UpdateError::PayloadOutOfRange => "payload value exceeds 2^mat_elem_bit_len - 1"@,
            UpdateError::Matrix(e) => "matrix error: "@ + e.text(),
        }
    }

    /// The text of the error.
    pub fn message(&self) -> (s: String)
        ensures
            s@ == self.text(),
    {
        let s: String = match self {
            UpdateError::SegmentOutOfBounds => text::join("segment index out of bounds", ""),
            UpdateError::RowIndexOutOfBounds => text::join(
                "row_local_idx exceeds segment size",
                "",
            ),
            UpdateError::ShapeMismatch => text::join(
                "new_payload length does not match row_elems_bucket",
                "",
            ),
            UpdateError::PayloadOutOfRange => text::join(
                "payload value exceeds 2^mat_elem_bit_len - 1",
                "",
            ),
            UpdateError::Matrix(e) => text::join("matrix error: ", e.message()),
        };
        proof {
            reveal_strlit("");
            assert(s@ =~= self.text());
        }
        s
    }
}

impl From<MatrixError> for UpdateError {
    fn from(e: MatrixError) -> (r: Self) {
        UpdateError::Matrix(e)
    }
}

impl vstd::std_specs::convert::FromSpecImpl<MatrixError> for UpdateError {
    open spec fn obeys_from_spec() -> bool {
        true
    }

    open spec fn from_spec(e: MatrixError) -> Self {
        UpdateError::Matrix(e)
    }
}

/// The matrices of one segment.
pub struct PerSegmentState {
    /// The public matrix.
    pub a: Matrix,
    /// The database.
    pub d: Matrix,
    /// The hint.
    pub h: Matrix,
}

/// Row `i` of `a` times column `c` of `d`.
pub open spec fn row_by_column(a: Matrix, d: Matrix, i: int, c: int) -> int {
    arith::dot(
        a.spec_elems(),
        i * a.spec_cols(),
        1,
        d.spec_elems(),
        c,
        d.spec_cols() as int,
        0,
        a.spec_cols() as int,
    )
}

impl PerSegmentState {
    /// The shapes go together: `a` is `n` by `seg`, `d` is `seg` by `width`, and `h` is `n` by
    /// `width`.
    pub open spec fn shaped(self, n: int, seg: int, width: int) -> bool {
        &&& self.a.wf()
        &&& self.d.wf()
        &&& self.h.wf()
        &&& self.a.spec_rows() == n
        &&& self.a.spec_cols() == seg
        &&& self.d.spec_rows() == seg
        &&& self.d.spec_cols() == width
        &&& self.h.spec_rows() == n
        &&& self.h.spec_cols() == width
    }

    /// The hint is that of the database.
    pub open spec fn in_step(self) -> bool {
        self.h.is_product(self.a, self.d)
    }

    /// The hint has moved from that of `old` by what the product of the public matrix and the
    /// database has moved by.
    pub open spec fn hint_follows(self, old: Self) -> bool {
        &&& self.a == old.a
        &&& self.h.wf()
        &&& self.h.spec_rows() == old.h.spec_rows()
        &&& self.h.spec_cols() == old.h.spec_cols()
        &&& forall|i: int, c: int|
            0 <= i < self.h.spec_rows() && 0 <= c < self.h.spec_cols() ==> #[trigger] self.h.at(
                i,
                c,
            ) == arith::wrap(
                old.h.at(i, c) + row_by_column(self.a, self.d, i, c) - row_by_column(
                    old.a,
                    old.d,
                    i,
                    c,
                ),
            )
    }
}

/// The segments of a server with the given parameters.
pub open spec fn segments_ok(segments: Seq<PerSegmentState>, params: FilterParams, n: int) -> bool {
    &&& segments.len() == params.arity.spec_degree()
    &&& forall|j: int|
        0 <= j < segments.len() ==> (#[trigger] segments[j]).shaped(
            n,
            params.spec_seg() as int,
            params.spec_row_elems_bucket(),
        )
}

// ---------------------------------------------------------------- validation
/// Every element is below `2^bits`.
pub open spec fn payload_ok(payload: Seq<u32>, bits: u32) -> bool {
    forall|i: int| 0 <= i < payload.len() ==> (#[trigger] payload[i]) < pow2(bits as nat)
}

/// Why one update is refused, if it is.
pub open spec fn refusal(u: PerSegmentRow, params: FilterParams) -> Option<UpdateError> {
    if u.segment_idx >= params.arity.spec_degree() {
        Some(UpdateError::SegmentOutOfBounds)
    } else if u.row_local_idx >= params.spec_seg() {
        Some(UpdateError::RowIndexOutOfBounds)
    } else if u.new_payload@.len() != params.spec_row_elems_bucket() {
        Some(UpdateError::ShapeMismatch)
    } else if !payload_ok(u.new_payload@, params.mat_elem_bit_len) {
        Some(UpdateError::PayloadOutOfRange)
    } else {
        None
    }
}

/// Why the first of the updates that is refused is refused.
pub open spec fn first_refusal(updates: Seq<PerSegmentRow>, params: FilterParams) -> Option<
    UpdateError,
>
    decreases updates.len(),
{
    if updates.len() == 0 {
        None
    } else {
        match first_refusal(updates.drop_last(), params) {
            Some(e) => Some(e),
            None => refusal(updates.last(), params),
        }
    }
}

/// Where no update is refused, each of them is good.
pub proof fn lemma_none_refused(updates: Seq<PerSegmentRow>, params: FilterParams)
    requires
        first_refusal(updates, params) is None,
    ensures
        forall|i: int|
            0 <= i < updates.len() ==> refusal(#[trigger] updates[i], params) is None,
    decreases updates.len(),
{
    if updates.len() > 0 {
        let init = updates.drop_last();
        lemma_none_refused(init, params);
        assert forall|i: int| 0 <= i < updates.len() implies refusal(
            #[trigger] updates[i],
            params,
        ) is None by {
            if i < init.len() {
                assert(init[i] == updates[i]);
            }
        }
    }
}

/// Where each update is good, none is refused.
pub proof fn lemma_all_good(updates: Seq<PerSegmentRow>, params: FilterParams)
    requires
        forall|i: int|
            0 <= i < updates.len() ==> refusal(#[trigger] updates[i], params) is None,
    ensures
        first_refusal(updates, params) is None,
    decreases updates.len(),
{
    if updates.len() > 0 {
        let init = updates.drop_last();
        assert forall|i: int| 0 <= i < init.len() implies refusal(
            #[trigger] init[i],
            params,
        ) is None by {
            assert(init[i] == updates[i]);
        }
        lemma_all_good(init, params);
        assert(updates.last() == updates[updates.len() - 1]);
    }
}

/// The first refusal of a prefix is that of the whole.
proof fn lemma_prefix_refusal(updates: Seq<PerSegmentRow>, params: FilterParams, n: int)
    requires
        0 <= n <= updates.len(),
        first_refusal(updates.take(n), params) is Some,
    ensures
        first_refusal(updates, params) == first_refusal(updates.take(n), params),
    decreases updates.len(),
{
    if n == updates.len() {
        assert(updates.take(n) =~= updates);
    } else {
        let init = updates.drop_last();
        assert(init.take(n) =~= updates.take(n));
        lemma_prefix_refusal(init, params, n);
    }
}

/// Whether every element is at most `most`.
fn all_at_most(payload: &[u32], most: u32) -> (ok: bool)
    ensures
        ok == (forall|i: int| 0 <= i < payload@.len() ==> (#[trigger] payload@[i]) <= most),
{
    let n: usize = payload.len();
    let mut i: usize = 0;
    while i < n
        invariant
            i <= n == payload@.len(),
            forall|k: int| 0 <= k < i ==> (#[trigger] payload@[k]) <= most,
        decreases n - i,
    {
        if payload[i] > most {
            return false;
        }
        i = i + 1;
    }
    true
}

/// Refuses an update that does not fit the parameters.
fn check_update(u: &PerSegmentRow, params: &FilterParams) -> (r: Result<(), UpdateError>)
    requires
        params.mat_elem_bit_len > 0,
        params.spec_row_elems_bucket() <= u32::MAX,
    ensures
        match refusal(*u, *params) {
            Some(e) => r == Err::<(), UpdateError>(e),
            None => r is Ok,
        },
{
    let bits: u32 = params.mat_elem_bit_len;
    proof {
        lemma2_to64();
        if bits < 32 {
            if bits < 31 {
                lemma_pow2_strictly_increases(bits as nat, 31);
            }
            lemma_pow2_pos(bits as nat);
            vstd::bits::lemma_u32_shl_is_mul(1, bits);
        } else if bits > 32 {
            lemma_pow2_strictly_increases(32, bits as nat);
        }
    }
    let mask: u32 = if bits >= 32 {
        u32::MAX
    } else {
        (1u32 << bits) - 1
    };
    if u.segment_idx as u32 >= params.degree() {
        return Err(UpdateError::SegmentOutOfBounds);
    }
    if u.row_local_idx >= params.seg() {
        return Err(UpdateError::RowIndexOutOfBounds);
    }
    if u.new_payload.len() != params.row_elems_bucket() as usize {
        return Err(UpdateError::ShapeMismatch);
    }
    if !all_at_most(u.new_payload.as_slice(), mask) {
        return Err(UpdateError::PayloadOutOfRange);
    }
    Ok(())
}

// ---------------------------------------------------------------- effect
/// The cells with row `r` replaced.
pub open spec fn with_row(cells: Seq<u32>, width: int, r: int, row: Seq<u32>) -> Seq<u32> {
    cells.take(r * width) + row + cells.skip(r * width + width)
}

/// The database of segment `j` after the updates, in order.
pub open spec fn written(cells: Seq<u32>, width: int, j: int, updates: Seq<PerSegmentRow>) -> Seq<
    u32,
>
    decreases updates.len(),
{
    if updates.len() == 0 {
        cells
    } else {
        let before = written(cells, width, j, updates.drop_last());
        let last = updates.last();
        if last.segment_idx == j {
            with_row(before, width, last.row_local_idx as int, last.new_payload@)
        } else {
            before
        }
    }
}

/// Replacing a row changes the cells of that row and no others.
pub proof fn lemma_with_row(cells: Seq<u32>, n: int, width: int, r: int, row: Seq<u32>)
    requires
        cells.len() == n * width,
        0 <= r < n,
        0 <= width,
        row.len() == width,
    ensures
        with_row(cells, width, r, row).len() == cells.len(),
        forall|i: int, c: int|
            0 <= i < n && 0 <= c < width ==> #[trigger] arith::cell(
                with_row(cells, width, r, row),
                width,
                i,
                c,
            ) == if i == r {
                row[c]
            } else {
                arith::cell(cells, width, i, c)
            },
{
    let out = with_row(cells, width, r, row);
    assert(0 <= r * width && r * width + width <= n * width) by (nonlinear_arith)
        requires
            0 <= r,
            r + 1 <= n,
            0 <= width,
    ;
    assert forall|i: int, c: int| 0 <= i < n && 0 <= c < width implies #[trigger] arith::cell(
        out,
        width,
        i,
        c,
    ) == if i == r {
        row[c]
    } else {
        arith::cell(cells, width, i, c)
    } by {
        arith::lemma_cell(i, c, n, width);
        if i < r {
            assert(i * width + width <= r * width) by (nonlinear_arith)
                requires
                    i + 1 <= r,
                    0 <= width,
            ;
        } else if i > r {
            assert(r * width + width <= i * width) by (nonlinear_arith)
                requires
                    r + 1 <= i,
                    0 <= width,
            ;
        }
    }
}

/// A dot product moves with the one row in which the columns differ.
proof fn lemma_dot_row_write(
    x: Seq<u32>,
    x0: int,
    d: Seq<u32>,
    e: Seq<u32>,
    width: int,
    r: int,
    c: int,
    hi: int,
)
    requires
        forall|i: int|
            0 <= i < hi && i != r ==> #[trigger] arith::cell(e, width, i, c) == arith::cell(
                d,
                width,
                i,
                c,
            ),
    ensures
        arith::dot(x, x0, 1, e, c, width, 0, hi) == arith::dot(x, x0, 1, d, c, width, 0, hi) + if 0
            <= r < hi {
            x[x0 + r] * (arith::cell(e, width, r, c) - arith::cell(d, width, r, c))
        } else {
            0
        },
    decreases hi,
{
    if hi > 0 {
        let i = hi - 1;
        lemma_dot_row_write(x, x0, d, e, width, r, c, i);
        assert(x0 + i * 1 == x0 + i);
        assert(c + i * width == i * width + c);
        let f = x[x0 + i] as int;
        let u = arith::cell(e, width, i, c) as int;
        let v = arith::cell(d, width, i, c) as int;
        assert(arith::term(x, x0, 1, e, c, width, i) == f * u);
        assert(arith::term(x, x0, 1, d, c, width, i) == f * v);
        if i == r {
            assert(f * (u - v) == f * u - f * v) by (nonlinear_arith);
        }
    }
}

/// Adds `f` times `diff` to a row.
fn add_scaled(row: &mut [u32], f: u32, diff: &[u32])
    requires
        old(row)@.len() == diff@.len(),
    ensures
        final(row)@ == Seq::new(diff@.len(), |c: int| arith::wrap(old(row)@[c] + f * diff@[c])),
{
    let n: usize = diff.len();
    let mut c: usize = 0;
    while c < n
        invariant
            c <= n == diff@.len() == row@.len(),
            old(row)@.len() == n,
            forall|k: int|
                0 <= k < n ==> #[trigger] row@[k] == if k < c {
                    arith::wrap(old(row)@[k] + f * diff@[k])
                } else {
                    old(row)@[k]
                },
        decreases n - c,
    {
        row[c] = arith::mac(row[c], f, diff[c]);
        c = c + 1;
    }
    assert(row@ =~= Seq::new(n as nat, |k: int| arith::wrap(old(row)@[k] + f * diff@[k])));
}

/// The difference of two rows.
fn row_difference(new: &[u32], old_row: &[u32]) -> (diff: Vec<u32>)
    requires
        new@.len() == old_row@.len(),
    ensures
        diff@ == Seq::new(new@.len(), |c: int| arith::wrap(new@[c] - old_row@[c])),
{
    let n: usize = new.len();
    let mut diff: Vec<u32> = Vec::with_capacity(n);
    let mut c: usize = 0;
    while c < n
        invariant
            c <= n == new@.len() == old_row@.len(),
            diff@.len() == c,
            forall|k: int|
                0 <= k < c ==> #[trigger] diff@[k] == arith::wrap(new@[k] - old_row@[k]),
        decreases n - c,
    {
        diff.push(arith::sub_mod(new[c], old_row[c]));
        c = c + 1;
    }
    assert(diff@ =~= Seq::new(n as nat, |k: int| arith::wrap(new@[k] - old_row@[k])));
    diff
}

/// Adds to every row of `h` its entry of `column` times `diff`.
fn add_outer(h: &mut Matrix, column: &[u32], diff: &[u32]) -> (r: Result<(), MatrixError>)
    requires
        old(h).wf(),
        column@.len() == old(h).spec_rows(),
        diff@.len() == old(h).spec_cols(),
    ensures
        r is Ok,
        final(h).wf(),
        final(h).spec_rows() == old(h).spec_rows(),
        final(h).spec_cols() == old(h).spec_cols(),
        forall|i: int, c: int|
            0 <= i < old(h).spec_rows() && 0 <= c < old(h).spec_cols() ==> #[trigger] final(h).at(
                i,
                c,
            ) == arith::wrap(old(h).at(i, c) + column@[i] * diff@[c]),
{
    let n: usize = column.len();
    let ghost rows = h.spec_rows() as int;
    let ghost width = h.spec_cols() as int;
    let mut i: usize = 0;
    while i < n
        invariant
            i <= n == column@.len() == rows,
            diff@.len() == width,
            h.wf(),
            h.spec_rows() == rows,
            h.spec_cols() == width,
            forall|k: int, c: int|
                0 <= k < rows && 0 <= c < width ==> #[trigger] h.at(k, c) == if k < i {
                    arith::wrap(old(h).at(k, c) + column@[k] * diff@[c])
                } else {
                    old(h).at(k, c)
                },
        decreases n - i,
    {
        let f: u32 = column[i];
        let ghost before = *h;
        if f != 0 {
            let ghost mut new_row: Seq<u32> = Seq::empty();
            match h.row_mut(i as u32) {
                Ok(row) => {
                    proof {
                        arith::lemma_cell_row(i as int, rows, width);
                    }
                    add_scaled(row, f, diff);
                    proof {
                        new_row = row@;
                    }
                },
                Err(e) => {
                    return Err(e);
                },
            }
            proof {
                arith::lemma_cell_row(i as int, rows, width);
                lemma_with_row(before.spec_elems(), rows, width, i as int, new_row);
                assert(h.spec_elems() == with_row(before.spec_elems(), width, i as int, new_row));
                assert forall|k: int, c: int|
                    0 <= k < rows && 0 <= c < width implies #[trigger] h.at(k, c) == if k < i + 1 {
                    arith::wrap(old(h).at(k, c) + column@[k] * diff@[c])
                } else {
                    old(h).at(k, c)
                } by {
                    assert(h.at(k, c) == arith::cell(
                        with_row(before.spec_elems(), width, i as int, new_row),
                        width,
                        k,
                        c,
                    ));
                    assert(before.at(k, c) == arith::cell(before.spec_elems(), width, k, c));
                    if k == i {
                        assert(before.spec_row(k)[c] == before.at(k, c));
                    }
                }
            }
        } else {
            proof {
                assert forall|k: int, c: int|
                    0 <= k < rows && 0 <= c < width implies #[trigger] h.at(k, c) == if k < i + 1 {
                    arith::wrap(old(h).at(k, c) + column@[k] * diff@[c])
                } else {
                    old(h).at(k, c)
                } by {
                    if k == i {
                        assert(0 * diff@[c] == 0) by (nonlinear_arith);
                        arith::lemma_wrap_id(old(h).at(k, c));
                    }
                }
            }
        }
        i = i + 1;
    }
    Ok(())
}

/// Writes one row of the database and moves the hint along.
fn apply_row(state: &mut PerSegmentState, row_local_idx: u32, payload: &[u32]) -> (r: Result<
    (),
    UpdateError,
>)
    requires
        old(state).shaped(
            old(state).h.spec_rows() as int,
            old(state).d.spec_rows() as int,
            old(state).d.spec_cols() as int,
        ),
        row_local_idx < old(state).d.spec_rows(),
        payload@.len() == old(state).d.spec_cols(),
    ensures
        r is Ok,
        final(state).shaped(
            old(state).h.spec_rows() as int,
            old(state).d.spec_rows() as int,
            old(state).d.spec_cols() as int,
        ),
        final(state).hint_follows(*old(state)),
        final(state).d.spec_elems() == with_row(
            old(state).d.spec_elems(),
            old(state).d.spec_cols() as int,
            row_local_idx as int,
            payload@,
        ),
{
    let ghost s0 = *state;
    let ghost n = s0.h.spec_rows() as int;
    let ghost seg = s0.d.spec_rows() as int;
    let ghost width = s0.d.spec_cols() as int;
    let ghost q = row_local_idx as int;
    proof {
        arith::lemma_cell_row(q, seg, width);
    }
    let diff: Vec<u32> = match state.d.row(row_local_idx) {
        Ok(old_row) => row_difference(payload, old_row),
        Err(e) => {
            return Err(UpdateError::Matrix(e));
        },
    };
    let column: Vec<u32> = match state.a.column(row_local_idx) {
        Ok(column) => column,
        Err(e) => {
            return Err(UpdateError::Matrix(e));
        },
    };
    match add_outer(&mut state.h, column.as_slice(), diff.as_slice()) {
        Ok(_) => {},
        Err(e) => {
            return Err(UpdateError::Matrix(e));
        },
    }
    match state.d.row_mut(row_local_idx) {
        Ok(row) => {
            copy_row(row, payload);
        },
        Err(e) => {
            return Err(UpdateError::Matrix(e));
        },
    }
    proof {
        let d0 = s0.d.spec_elems();
        let d1 = state.d.spec_elems();
        lemma_with_row(d0, seg, width, q, payload@);
        assert(d1 == with_row(d0, width, q, payload@));
        assert forall|i: int, c: int|
            0 <= i < state.h.spec_rows() && 0 <= c < state.h.spec_cols() implies #[trigger] state.h.at(
            i,
            c,
        ) == arith::wrap(
            s0.h.at(i, c) + row_by_column(state.a, state.d, i, c) - row_by_column(
                s0.a,
                s0.d,
                i,
                c,
            ),
        ) by {
            lemma_dot_row_write(
                s0.a.spec_elems(),
                i * seg,
                d0,
                d1,
                width,
                q,
                c,
                seg,
            );
            assert(arith::cell(d1, width, q, c) == payload@[c]);
            assert(s0.d.spec_row(q)[c] == arith::cell(d0, width, q, c));
            let f = s0.a.at(i, q) as int;
            assert(column@[i] == f);
            let t = payload@[c] - arith::cell(d0, width, q, c);
            assert(diff@[c] == arith::wrap(t));
            arith::lemma_wrap_mul(f, t);
            arith::lemma_wrap_cong(f * arith::wrap(t), f * t, s0.h.at(i, c) as int);
        }
    }
    Ok(())
}

/// Copies a row.
fn copy_row(dst: &mut [u32], src: &[u32])
    requires
        old(dst)@.len() == src@.len(),
    ensures
        final(dst)@ == src@,
{
    let n: usize = src.len();
    let mut c: usize = 0;
    while c < n
        invariant
            c <= n == src@.len() == dst@.len(),
            forall|k: int| 0 <= k < c ==> #[trigger] dst@[k] == src@[k],
        decreases n - c,
    {
        dst[c] = src[c];
        c = c + 1;
    }
    assert(dst@ =~= src@);
}

/// The hint that follows two changes one after the other follows both.
proof fn lemma_follows_trans(s0: PerSegmentState, s1: PerSegmentState, s2: PerSegmentState)
    requires
        s1.hint_follows(s0),
        s2.hint_follows(s1),
    ensures
        s2.hint_follows(s0),
{
    assert forall|i: int, c: int|
        0 <= i < s2.h.spec_rows() && 0 <= c < s2.h.spec_cols() implies #[trigger] s2.h.at(i, c)
        == arith::wrap(
        s0.h.at(i, c) + row_by_column(s2.a, s2.d, i, c) - row_by_column(s0.a, s0.d, i, c),
    ) by {
        let x0 = row_by_column(s0.a, s0.d, i, c);
        let x1 = row_by_column(s1.a, s1.d, i, c);
        let x2 = row_by_column(s2.a, s2.d, i, c);
        let h0 = s0.h.at(i, c) as int;
        assert(s1.h.at(i, c) == arith::wrap(h0 + x1 - x0));
        arith::lemma_wrap_add(h0 + x1 - x0, x2 - x1);
    }
}

/// A hint that is in step and follows the database stays in step.
pub proof fn law_hint_stays_in_step(before: PerSegmentState, after: PerSegmentState)
    requires
        before.in_step(),
        after.hint_follows(before),
        after.d.spec_rows() == before.d.spec_rows(),
        after.d.spec_cols() == before.d.spec_cols(),
    ensures
        after.in_step(),
{
    assert forall|i: int, c: int|
        0 <= i < after.a.spec_rows() && 0 <= c < after.d.spec_cols() implies #[trigger] after.h.at(
        i,
        c,
    ) == crate::matrix::product_cell(
        after.a.spec_elems(),
        after.d.spec_elems(),
        after.a.spec_cols() as int,
        after.d.spec_cols() as int,
        i,
        c,
    ) by {
        let x = row_by_column(before.a, before.d, i, c);
        let y = row_by_column(after.a, after.d, i, c);
        assert(before.h.at(i, c) == arith::wrap(x));
        arith::lemma_wrap_add(x, y - x);
    }
}

/// Overwrites rows of the databases and moves the hints along, update by update. Where one of
/// the updates is refused, nothing is changed.
pub fn apply(
    segments: &mut [PerSegmentState],
    params: &FilterParams,
    updates: &[PerSegmentRow],
) -> (r: Result<(), UpdateError>)
    requires
        params.mat_elem_bit_len > 0,
        params.spec_row_elems_bucket() <= u32::MAX,
        old(segments)@.len() > 0,
        segments_ok(old(segments)@, *params, old(segments)@[0].h.spec_rows() as int),
    ensures
        segments_ok(final(segments)@, *params, old(segments)@[0].h.spec_rows() as int),
        match first_refusal(updates@, *params) {
            Some(e) => r == Err::<(), UpdateError>(e) && final(segments)@ == old(segments)@,
            None => {
                &&& r is Ok
                &&& forall|j: int|
                    0 <= j < old(segments)@.len() ==> {
                        &&& (#[trigger] final(segments)@[j]).hint_follows(old(segments)@[j])
                        &&& final(segments)@[j].d.spec_elems() == written(
                            old(segments)@[j].d.spec_elems(),
                            params.spec_row_elems_bucket(),
                            j,
                            updates@,
                        )
                        &&& old(segments)@[j].in_step() ==> final(segments)@[j].in_step()
                    }
            },
        },
{
    let ghost s0 = segments@;
    let ghost n = s0[0].h.spec_rows() as int;
    let ghost width = params.spec_row_elems_bucket();
    let count: usize = updates.len();
    let mut x: usize = 0;
    while x < count
        invariant
            x <= count == updates@.len(),
            params.mat_elem_bit_len > 0,
            params.spec_row_elems_bucket() <= u32::MAX,
            segments@ == s0,
            segments_ok(s0, *params, n),
            first_refusal(updates@.take(x as int), *params) is None,
            s0 == old(segments)@,
            n == s0[0].h.spec_rows(),
        decreases count - x,
    {
        proof {
            assert(updates@.take(x + 1).drop_last() =~= updates@.take(x as int));
        }
        match check_update(&updates[x], params) {
            Ok(_) => {},
            Err(e) => {
                proof {
                    lemma_prefix_refusal(updates@, *params, x + 1);
                }
                return Err(e);
            },
        }
        x = x + 1;
    }
    proof {
        assert(updates@.take(count as int) =~= updates@);
        lemma_none_refused(updates@, *params);
        assert forall|j: int| 0 <= j < s0.len() implies (#[trigger] s0[j]).hint_follows(s0[j]) by {
            lemma_follows_self(s0[j]);
        }
    }
    let mut y: usize = 0;
    while y < count
        invariant
            y <= count == updates@.len(),
            n == s0[0].h.spec_rows(),
            width == params.spec_row_elems_bucket(),
            segments_ok(s0, *params, n),
            segments_ok(segments@, *params, n),
            forall|i: int|
                0 <= i < updates@.len() ==> refusal(#[trigger] updates@[i], *params) is None,
            forall|j: int|
                0 <= j < s0.len() ==> {
                    &&& (#[trigger] segments@[j]).hint_follows(s0[j])
                    &&& segments@[j].d.spec_elems() == written(
                        s0[j].d.spec_elems(),
                        width,
                        j,
                        updates@.take(y as int),
                    )
                },
            s0 == old(segments)@,
            first_refusal(updates@, *params) is None,
        decreases count - y,
    {
        let u: &PerSegmentRow = &updates[y];
        let ghost before = segments@;
        let at: usize = u.segment_idx as usize;
        proof {
            assert(refusal(updates@[y as int], *params) is None);
            assert(updates@.take(y + 1).drop_last() =~= updates@.take(y as int));
            assert(before[at as int].shaped(n, params.spec_seg() as int, width));
        }
        match apply_row(&mut segments[at], u.row_local_idx, u.new_payload.as_slice()) {
            Ok(_) => {},
            Err(e) => {
                return Err(e);
            },
        }
        proof {
            assert forall|j: int| 0 <= j < s0.len() implies {
                &&& (#[trigger] segments@[j]).hint_follows(s0[j])
                &&& segments@[j].d.spec_elems() == written(
                    s0[j].d.spec_elems(),
                    width,
                    j,
                    updates@.take(y + 1),
                )
                &&& segments@[j].shaped(n, params.spec_seg() as int, width)
            } by {
                assert(before[j].hint_follows(s0[j]));
                if j == at {
                    lemma_follows_trans(s0[j], before[j], segments@[j]);
                } else {
                    assert(segments@[j] == before[j]);
                }
            }
        }
        y = y + 1;
    }
    proof {
        assert(updates@.take(count as int) =~= updates@);
        assert forall|j: int| 0 <= j < s0.len() implies {
            &&& (#[trigger] segments@[j]).hint_follows(s0[j])
            &&& s0[j].in_step() ==> segments@[j].in_step()
        } by {
            if s0[j].in_step() {
                assert(s0[j].shaped(n, params.spec_seg() as int, width));
                law_hint_stays_in_step(s0[j], segments@[j]);
            }
        }
    }
    Ok(())
}

/// What does not change is followed.
proof fn lemma_follows_self(s: PerSegmentState)
    requires
        s.h.wf(),
    ensures
        s.hint_follows(s),
{
    assert forall|i: int, c: int|
        0 <= i < s.h.spec_rows() && 0 <= c < s.h.spec_cols() implies #[trigger] s.h.at(i, c)
        == arith::wrap(
        s.h.at(i, c) + row_by_column(s.a, s.d, i, c) - row_by_column(s.a, s.d, i, c),
    ) by {
        arith::lemma_wrap_id(s.h.at(i, c));
    }
}

// ---------------------------------------------------------------- laws
/// Two batches one after the other do what the joined batch does.
pub proof fn law_batches_compose(
    cells: Seq<u32>,
    width: int,
    j: int,
    first: Seq<PerSegmentRow>,
    second: Seq<PerSegmentRow>,
)
    ensures
        written(cells, width, j, first + second) == written(
            written(cells, width, j, first),
            width,
            j,
            second,
        ),
    decreases second.len(),
{
    if second.len() == 0 {
        assert(first + second =~= first);
    } else {
        assert((first + second).drop_last() =~= first + second.drop_last());
        law_batches_compose(cells, width, j, first, second.drop_last());
    }
}

/// Of several updates of one row, the last one wins: after good updates a row holds the
/// payload of the last update that names it, and a row that none names is as it was.
pub proof fn law_last_write_wins(
    cells: Seq<u32>,
    params: FilterParams,
    j: int,
    updates: Seq<PerSegmentRow>,
    r: int,
    c: int,
)
    requires
        cells.len() == params.spec_seg() * params.spec_row_elems_bucket(),
        0 <= params.spec_row_elems_bucket(),
        first_refusal(updates, params) is None,
        0 <= r < params.spec_seg(),
        0 <= c < params.spec_row_elems_bucket(),
    ensures
        written(cells, params.spec_row_elems_bucket(), j, updates).len() == cells.len(),
        arith::cell(
            written(cells, params.spec_row_elems_bucket(), j, updates),
            params.spec_row_elems_bucket(),
            r,
            c,
        ) == match last_update(updates, j, r) {
            Some(u) => u.new_payload@[c],
            None => arith::cell(cells, params.spec_row_elems_bucket(), r, c),
        },
    decreases updates.len(),
{
    if updates.len() > 0 {
        let init = updates.drop_last();
        let last = updates.last();
        let width = params.spec_row_elems_bucket();
        law_last_write_wins(cells, params, j, init, r, c);
        let before = written(cells, width, j, init);
        if last.segment_idx == j {
            lemma_with_row(
                before,
                params.spec_seg() as int,
                width,
                last.row_local_idx as int,
                last.new_payload@,
            );
        }
    }
}

/// The last update of row `r` of segment `j`.
pub open spec fn last_update(updates: Seq<PerSegmentRow>, j: int, r: int) -> Option<PerSegmentRow>
    decreases updates.len(),
{
    if updates.len() == 0 {
        None
    } else if updates.last().segment_idx == j && updates.last().row_local_idx == r {
        Some(updates.last())
    } else {
        last_update(updates.drop_last(), j, r)
    }
}

} // verus!
