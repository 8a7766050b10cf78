//! Responses to queries: one row vector times one database matrix per segment.
use vstd::prelude::*;

use crate::arith;
use crate::matrix;
use crate::matrix::{Matrix, MatrixError};

verus! {

/// The row vector `q` times the database `d`.
pub open spec fn response_row(q: Seq<u32>, d: Matrix) -> Seq<u32> {
    Seq::new(
        d.spec_cols() as nat,
        |j: int|
            matrix::product_cell(
                q,
                d.spec_elems(),
                d.spec_rows() as int,
                d.spec_cols() as int,
                0,
                j,
            ),
    )
}

/// Every query has one entry per row of its database.
pub open spec fn queries_fit(databases: Seq<&Matrix>, queries: Seq<Vec<u32>>) -> bool {
    forall|j: int|
        0 <= j < queries.len() ==> (#[trigger] queries[j])@.len() == databases[j].spec_rows()
}

/// The response of every segment: its query times its database.
pub fn respond(databases: &[&Matrix], queries: &[Vec<u32>]) -> (r: Result<
    Vec<Vec<u32>>,
    MatrixError,
>)
    requires
        databases@.len() == queries@.len(),
        forall|j: int| 0 <= j < databases@.len() ==> (#[trigger] databases@[j]).wf(),
    ensures
        !queries_fit(databases@, queries@) ==> r == Err::<Vec<Vec<u32>>, MatrixError>(
            MatrixError::ShapeMismatch,
        ),
        queries_fit(databases@, queries@) ==> {
            &&& r is Ok
            &&& r->Ok_0@.len() == queries@.len()
            &&& forall|j: int|
                0 <= j < queries@.len() ==> (#[trigger] r->Ok_0@[j])@ == response_row(
                    queries@[j]@,
                    *databases@[j],
                )
        },
{
    let n: usize = databases.len();
    let mut out: Vec<Vec<u32>> = Vec::with_capacity(n);
    let mut j: usize = 0;
    while j < n
        invariant
            j <= n == databases@.len() == queries@.len(),
            forall|i: int| 0 <= i < databases@.len() ==> (#[trigger] databases@[i]).wf(),
            out@.len() == j,
            forall|i: int|
                0 <= i < j ==> (#[trigger] queries@[i])@.len() == databases@[i].spec_rows(),
            forall|i: int|
                0 <= i < j ==> (#[trigger] out@[i])@ == response_row(
                    queries@[i]@,
                    *databases@[i],
                ),
        decreases n - j,
    {
        let d: &Matrix = databases[j];
        match d.left_mul_row_vec(queries[j].as_slice()) {
            Ok(row) => {
                out.push(row);
            },
            Err(e) => {
                assert(queries@[j as int]@.len() != databases@[j as int].spec_rows());
                return Err(e);
            },
        }
        j = j + 1;
    }
    Ok(out)
}

// ---------------------------------------------------------------- laws
/// The query that picks row `i` out of `n`.
pub open spec fn unit_query(n: nat, i: int) -> Seq<u32> {
    Seq::new(
        n,
        |t: int|
            if t == i {
                1
            } else {
                0
            },
    )
}

/// A plain unit query reads its row.
pub proof fn law_unit_query_reads_row(d: Matrix, i: int)
    requires
        d.wf(),
        0 <= i < d.spec_rows(),
    ensures
        response_row(unit_query(d.spec_rows() as nat, i), d) == d.spec_row(i),
{
    let q = unit_query(d.spec_rows() as nat, i);
    let n = d.spec_rows() as int;
    let w = d.spec_cols() as int;
    arith::lemma_cell_row(i, n, w);
    assert(0 * n == 0) by (nonlinear_arith);
    assert forall|j: int| 0 <= j < w implies response_row(q, d)[j] == d.spec_row(i)[j] by {
        lemma_unit_dot(q, d.spec_elems(), i, j, w, n);
        arith::lemma_wrap_id(d.spec_elems()[i * w + j]);
    }
    assert(response_row(q, d) =~= d.spec_row(i));
}

proof fn lemma_unit_dot(q: Seq<u32>, cells: Seq<u32>, i: int, j: int, w: int, hi: int)
    requires
        0 <= i,
        0 <= hi <= q.len(),
        forall|t: int|
            0 <= t < q.len() ==> #[trigger] q[t] == if t == i {
                1u32
            } else {
                0u32
            },
    ensures
        arith::dot(q, 0, 1, cells, j, w, 0, hi) == if i < hi {
            cells[i * w + j] as int
        } else {
            0
        },
    decreases hi,
{
    if hi > 0 {
        let t = hi - 1;
        lemma_unit_dot(q, cells, i, j, w, t);
        let x = cells[j + t * w] as int;
        assert(arith::term(q, 0, 1, cells, j, w, t) == q[t] * x);
        assert(1 * x == x && 0 * x == 0) by (nonlinear_arith);
    }
}

} // verus!
