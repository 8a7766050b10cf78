//! What sparse row edits do to a database and to its hint.
use vstd::prelude::*;

use crate::arith;
use crate::backend::gemm;
use crate::backend::patch;
use crate::wire::sparse::{Cells, Edits};

verus! {

// ---------------------------------------------------------------- edits
/// Sum of the deltas of cell `c`.
pub open spec fn cell_total(cells: Cells, c: int) -> int {
    patch::column_total(cells, |off: u16| off as int, c)
}

/// Every edit lies in a database of `n_rows` rows and `width` columns.
pub open spec fn edits_fit(rows: Edits, n_rows: int, width: int) -> bool {
    forall|i: int|
        0 <= i < rows.len() ==> (#[trigger] rows[i]).0 < n_rows && cells_fit(rows[i].1, width)
}

/// Every offset is below `width`.
pub open spec fn cells_fit(cells: Cells, width: int) -> bool {
    forall|x: int| 0 <= x < cells.len() ==> (#[trigger] cells[x]).0 < width
}

/// The database after the edits: every delta is added to its cell.
pub open spec fn patched_db(d: Seq<u32>, width: int, rows: Edits) -> Seq<u32>
    decreases rows.len(),
{
    if rows.len() == 0 {
        d
    } else {
        let before = patched_db(d, width, rows.drop_last());
        let last = rows.last();
        Seq::new(
            before.len(),
            |x: int|
                if x / width == last.0 {
                    arith::wrap(before[x] + cell_total(last.1, x % width))
                } else {
                    before[x]
                },
        )
    }
}

/// What the edits add to cell `(k, c)` of the hint: the sum over the edited rows of
/// `a[row][k]` times the row's delta at `c`.
pub open spec fn patch_sum(a: Seq<u32>, lwe_dim: int, rows: Edits, k: int, c: int) -> int
    decreases rows.len(),
{
    if rows.len() == 0 {
        0
    } else {
        patch_sum(a, lwe_dim, rows.drop_last(), k, c) + arith::cell(
            a,
            lwe_dim,
            rows.last().0 as int,
            k,
        ) * cell_total(rows.last().1, c)
    }
}

/// `out` is the hint `h` after the edits.
pub open spec fn is_patched(
    out: Seq<u32>,
    h: Seq<u32>,
    a: Seq<u32>,
    lwe_dim: int,
    width: int,
    rows: Edits,
) -> bool {
    &&& out.len() == h.len()
    &&& forall|k: int, c: int|
        0 <= k < lwe_dim && 0 <= c < width ==> #[trigger] arith::cell(out, width, k, c)
            == arith::wrap(arith::cell(h, width, k, c) + patch_sum(a, lwe_dim, rows, k, c))
}

/// `h` is the hint of the database `d`: the transpose of `a` times `d`.
pub open spec fn is_hint(
    h: Seq<u32>,
    a: Seq<u32>,
    d: Seq<u32>,
    lwe_dim: int,
    width: int,
    n_rows: int,
) -> bool {
    &&& h.len() == lwe_dim * width
    &&& forall|k: int, j: int|
        0 <= k < lwe_dim && 0 <= j < width ==> #[trigger] arith::cell(h, width, k, j)
            == arith::wrap(arith::dot(a, k, lwe_dim, d, j, width, 0, n_rows))
}

// ---------------------------------------------------------------- lemmas
/// A cell that is out of reach of every edit has no delta.
pub proof fn lemma_cell_total_outside(cells: Cells, width: int, c: int)
    requires
        cells_fit(cells, width),
        c >= width,
    ensures
        cell_total(cells, c) == 0,
{
    patch::lemma_column_total_absent(cells, |off: u16| off as int, c);
}

/// The sums of two edit lists add up.
pub proof fn lemma_patch_sum_concat(
    a: Seq<u32>,
    lwe_dim: int,
    r1: Edits,
    r2: Edits,
    k: int,
    c: int,
)
    ensures
        patch_sum(a, lwe_dim, r1 + r2, k, c) == patch_sum(a, lwe_dim, r1, k, c) + patch_sum(
            a,
            lwe_dim,
            r2,
            k,
            c,
        ),
    decreases r2.len(),
{
    if r2.len() == 0 {
        assert(r1 + r2 =~= r1);
    } else {
        assert((r1 + r2).drop_last() =~= r1 + r2.drop_last());
        lemma_patch_sum_concat(a, lwe_dim, r1, r2.drop_last(), k, c);
    }
}

/// One more edited row.
pub proof fn lemma_patched_step(
    h0: Seq<u32>,
    h1: Seq<u32>,
    h2: Seq<u32>,
    a: Seq<u32>,
    lwe_dim: int,
    width: int,
    rows: Edits,
    row: (u32, Cells),
)
    requires
        is_patched(h1, h0, a, lwe_dim, width, rows),
        h2.len() == h1.len(),
        forall|k: int, c: int|
            0 <= k < lwe_dim && 0 <= c < width ==> #[trigger] arith::cell(h2, width, k, c)
                == arith::wrap(
                arith::cell(h1, width, k, c) + arith::cell(a, lwe_dim, row.0 as int, k)
                    * arith::wrap(cell_total(row.1, c)),
            ),
    ensures
        is_patched(h2, h0, a, lwe_dim, width, rows.push(row)),
{
    let next = rows.push(row);
    assert(next.drop_last() =~= rows);
    assert forall|k: int, c: int| 0 <= k < lwe_dim && 0 <= c < width implies #[trigger] arith::cell(
        h2,
        width,
        k,
        c,
    ) == arith::wrap(arith::cell(h0, width, k, c) + patch_sum(a, lwe_dim, next, k, c)) by {
        let x = arith::cell(h0, width, k, c) as int;
        let s = patch_sum(a, lwe_dim, rows, k, c);
        let f = arith::cell(a, lwe_dim, row.0 as int, k) as int;
        let t = cell_total(row.1, c);
        assert(arith::cell(h1, width, k, c) == arith::wrap(x + s));
        arith::lemma_wrap_add(x + s, f * arith::wrap(t));
        arith::lemma_wrap_mul(f, t);
        arith::lemma_wrap_add(x + s, f * arith::wrap(t) as int);
        arith::lemma_wrap_cong(f * arith::wrap(t), f * t, x + s);
    }
}

/// A patched hint is determined.
pub proof fn law_patched_unique(
    out1: Seq<u32>,
    out2: Seq<u32>,
    h: Seq<u32>,
    a: Seq<u32>,
    lwe_dim: int,
    width: int,
    rows: Edits,
)
    requires
        0 <= lwe_dim,
        0 <= width,
        h.len() == lwe_dim * width,
        is_patched(out1, h, a, lwe_dim, width, rows),
        is_patched(out2, h, a, lwe_dim, width, rows),
    ensures
        out1 == out2,
{
    arith::lemma_cells_equal(out1, out2, lwe_dim, width);
}

/// The edits of one row change a dot product with a database column by `a[row][k]` times
/// the row's delta.
proof fn lemma_dot_row_edit(
    a: Seq<u32>,
    lwe_dim: int,
    d: Seq<u32>,
    e: Seq<u32>,
    width: int,
    n_rows: int,
    row: int,
    total: int,
    k: int,
    j: int,
    hi: int,
)
    requires
        0 <= j < width,
        0 <= row < n_rows,
        0 <= hi <= n_rows,
        d.len() == n_rows * width,
        e.len() == d.len(),
        forall|i: int|
            0 <= i < n_rows ==> #[trigger] arith::cell(e, width, i, j) == if i == row {
                arith::wrap(arith::cell(d, width, i, j) + total)
            } else {
                arith::cell(d, width, i, j)
            },
    ensures
        arith::wrap(arith::dot(a, k, lwe_dim, e, j, width, 0, hi)) == arith::wrap(
            arith::dot(a, k, lwe_dim, d, j, width, 0, hi) + if row < hi {
                arith::cell(a, lwe_dim, row, k) * total
            } else {
                0
            },
        ),
    decreases hi,
{
    if hi > 0 {
        let i = hi - 1;
        lemma_dot_row_edit(a, lwe_dim, d, e, width, n_rows, row, total, k, j, i);
        let s = arith::dot(a, k, lwe_dim, d, j, width, 0, i);
        let s2 = arith::dot(a, k, lwe_dim, e, j, width, 0, i);
        let f = arith::cell(a, lwe_dim, i, k) as int;
        assert(k + i * lwe_dim == i * lwe_dim + k);
        assert(j + i * width == i * width + j);
        let x = arith::cell(d, width, i, j) as int;
        let y = arith::cell(e, width, i, j) as int;
        assert(arith::term(a, k, lwe_dim, d, j, width, i) == f * x);
        assert(arith::term(a, k, lwe_dim, e, j, width, i) == f * y);
        if i == row {
            assert(y == arith::wrap(x + total));
            arith::lemma_wrap_mul(f, x + total);
            assert(f * (x + total) == f * x + f * total) by (nonlinear_arith);
            arith::lemma_wrap_cong(f * y, f * (x + total), s);
            arith::lemma_wrap_cong(s2, s, f * y);
        } else {
            let g = if row < i {
                arith::cell(a, lwe_dim, row, k) * total
            } else {
                0
            };
            arith::lemma_wrap_cong(s2, s + g, f * x);
        }
    }
}

/// Cells of the patched database.
pub proof fn lemma_patched_db_cell(d: Seq<u32>, n_rows: int, width: int, rows: Edits, i: int, j: int)
    requires
        rows.len() > 0,
        0 <= i < n_rows,
        0 <= j < width,
        d.len() == n_rows * width,
    ensures
        patched_db(d, width, rows).len() == d.len(),
        arith::cell(patched_db(d, width, rows), width, i, j) == if i == rows.last().0 {
            arith::wrap(
                arith::cell(patched_db(d, width, rows.drop_last()), width, i, j) + cell_total(
                    rows.last().1,
                    j,
                ),
            )
        } else {
            arith::cell(patched_db(d, width, rows.drop_last()), width, i, j)
        },
{
    lemma_patched_db_len(d, width, rows.drop_last());
    arith::lemma_cell(i, j, n_rows, width);
}

pub proof fn lemma_patched_db_len(d: Seq<u32>, width: int, rows: Edits)
    ensures
        patched_db(d, width, rows).len() == d.len(),
    decreases rows.len(),
{
    if rows.len() > 0 {
        lemma_patched_db_len(d, width, rows.drop_last());
    }
}

/// Patching adds to a dot product with a database column what it adds to the hint.
pub proof fn lemma_patched_dot(
    a: Seq<u32>,
    d: Seq<u32>,
    lwe_dim: int,
    width: int,
    n_rows: int,
    rows: Edits,
    k: int,
    j: int,
)
    requires
        0 <= j < width,
        d.len() == n_rows * width,
        edits_fit(rows, n_rows, width),
    ensures
        arith::wrap(
            arith::dot(a, k, lwe_dim, patched_db(d, width, rows), j, width, 0, n_rows),
        ) == arith::wrap(
            arith::dot(a, k, lwe_dim, d, j, width, 0, n_rows) + patch_sum(a, lwe_dim, rows, k, j),
        ),
    decreases rows.len(),
{
    if rows.len() > 0 {
        let init = rows.drop_last();
        let last = rows.last();
        assert(edits_fit(init, n_rows, width)) by {
            assert forall|i: int| 0 <= i < init.len() implies (#[trigger] init[i]).0 < n_rows
                && cells_fit(init[i].1, width) by {
                assert(init[i] == rows[i]);
            }
        }
        assert(rows[rows.len() - 1].0 < n_rows);
        lemma_patched_dot(a, d, lwe_dim, width, n_rows, init, k, j);
        let before = patched_db(d, width, init);
        let after = patched_db(d, width, rows);
        lemma_patched_db_len(d, width, init);
        lemma_patched_db_len(d, width, rows);
        assert forall|i: int| 0 <= i < n_rows implies #[trigger] arith::cell(after, width, i, j)
            == if i == last.0 as int {
            arith::wrap(arith::cell(before, width, i, j) + cell_total(last.1, j))
        } else {
            arith::cell(before, width, i, j)
        } by {
            lemma_patched_db_cell(d, n_rows, width, rows, i, j);
        }
        lemma_dot_row_edit(
            a,
            lwe_dim,
            before,
            after,
            width,
            n_rows,
            last.0 as int,
            cell_total(last.1, j),
            k,
            j,
            n_rows,
        );
        arith::lemma_wrap_cong(
            arith::dot(a, k, lwe_dim, before, j, width, 0, n_rows),
            arith::dot(a, k, lwe_dim, d, j, width, 0, n_rows) + patch_sum(a, lwe_dim, init, k, j),
            arith::cell(a, lwe_dim, last.0 as int, k) * cell_total(last.1, j),
        );
    }
}

/// Patching the hint of a database gives the hint of the patched database.
pub proof fn law_patch_is_recompute(
    out: Seq<u32>,
    h: Seq<u32>,
    a: Seq<u32>,
    d: Seq<u32>,
    lwe_dim: int,
    width: int,
    n_rows: int,
    rows: Edits,
)
    requires
        d.len() == n_rows * width,
        edits_fit(rows, n_rows, width),
        is_hint(h, a, d, lwe_dim, width, n_rows),
        is_patched(out, h, a, lwe_dim, width, rows),
    ensures
        is_hint(out, a, patched_db(d, width, rows), lwe_dim, width, n_rows),
{
    assert forall|k: int, j: int| 0 <= k < lwe_dim && 0 <= j < width implies #[trigger] arith::cell(
        out,
        width,
        k,
        j,
    ) == arith::wrap(
        arith::dot(a, k, lwe_dim, patched_db(d, width, rows), j, width, 0, n_rows),
    ) by {
        lemma_patched_dot(a, d, lwe_dim, width, n_rows, rows, k, j);
        arith::lemma_wrap_add(
            arith::dot(a, k, lwe_dim, d, j, width, 0, n_rows),
            patch_sum(a, lwe_dim, rows, k, j),
        );
        assert(arith::cell(h, width, k, j) == arith::wrap(
            arith::dot(a, k, lwe_dim, d, j, width, 0, n_rows),
        ));
    }
}

/// A dense block of edited rows adds to the hint what its sparse edits add.
pub proof fn lemma_dense_rows(
    a: Seq<u32>,
    lwe_dim: int,
    width: int,
    rows: Edits,
    a_sel: Seq<u32>,
    delta: Seq<u32>,
    t: int,
    k: int,
    j: int,
)
    requires
        0 <= t <= rows.len(),
        0 <= k < lwe_dim,
        0 <= j < width,
        forall|r: int|
            0 <= r < t ==> #[trigger] arith::cell(a_sel, lwe_dim, r, k) == arith::cell(
                a,
                lwe_dim,
                rows[r].0 as int,
                k,
            ),
        forall|r: int|
            0 <= r < t ==> #[trigger] arith::cell(delta, width, r, j) == arith::wrap(
                cell_total(rows[r].1, j),
            ),
    ensures
        arith::wrap(arith::dot(a_sel, k, lwe_dim, delta, j, width, 0, t)) == arith::wrap(
            patch_sum(a, lwe_dim, rows.take(t), k, j),
        ),
    decreases t,
{
    if t > 0 {
        let r = t - 1;
        lemma_dense_rows(a, lwe_dim, width, rows, a_sel, delta, r, k, j);
        assert(rows.take(t).drop_last() =~= rows.take(r));
        assert(rows.take(t).last() == rows[r]);
        let f = arith::cell(a_sel, lwe_dim, r, k) as int;
        let y = arith::cell(delta, width, r, j) as int;
        let total = cell_total(rows[r].1, j);
        assert(arith::term(a_sel, k, lwe_dim, delta, j, width, r) == f * y) by {
            assert(k + r * lwe_dim == r * lwe_dim + k);
            assert(j + r * width == r * width + j);
        }
        let s = arith::dot(a_sel, k, lwe_dim, delta, j, width, 0, r);
        let u = patch_sum(a, lwe_dim, rows.take(r), k, j);
        arith::lemma_wrap_mul(f, total);
        arith::lemma_wrap_cong(s, u, f * y);
        arith::lemma_wrap_cong(f * y, f * total, u);
    }
}

/// Adding a dense block of edited rows to a hint patches it.
pub proof fn lemma_patched_block(
    h0: Seq<u32>,
    h1: Seq<u32>,
    h2: Seq<u32>,
    a: Seq<u32>,
    lwe_dim: int,
    width: int,
    done: Edits,
    block: Edits,
    a_sel: Seq<u32>,
    delta: Seq<u32>,
)
    requires
        is_patched(h1, h0, a, lwe_dim, width, done),
        gemm::is_gemm(h2, h1, a_sel, delta, lwe_dim, width, block.len() as int),
        forall|r: int, k: int|
            0 <= r < block.len() && 0 <= k < lwe_dim ==> #[trigger] arith::cell(
                a_sel,
                lwe_dim,
                r,
                k,
            ) == arith::cell(a, lwe_dim, block[r].0 as int, k),
        forall|r: int, j: int|
            0 <= r < block.len() && 0 <= j < width ==> #[trigger] arith::cell(delta, width, r, j)
                == arith::wrap(cell_total(block[r].1, j)),
    ensures
        is_patched(h2, h0, a, lwe_dim, width, done + block),
{
    let t = block.len() as int;
    assert(block.take(t) =~= block);
    assert forall|k: int, c: int| 0 <= k < lwe_dim && 0 <= c < width implies #[trigger] arith::cell(
        h2,
        width,
        k,
        c,
    ) == arith::wrap(arith::cell(h0, width, k, c) + patch_sum(a, lwe_dim, done + block, k, c)) by {
        lemma_dense_rows(a, lwe_dim, width, block, a_sel, delta, t, k, c);
        lemma_patch_sum_concat(a, lwe_dim, done, block, k, c);
        let x = arith::cell(h0, width, k, c) as int;
        let s = patch_sum(a, lwe_dim, done, k, c);
        let g = arith::dot(a_sel, k, lwe_dim, delta, c, width, 0, t);
        let u = patch_sum(a, lwe_dim, block, k, c);
        assert(arith::cell(h1, width, k, c) == arith::wrap(x + s));
        assert(arith::cell(h2, width, k, c) == gemm::gemm_cell(
            h1,
            a_sel,
            delta,
            lwe_dim,
            width,
            k,
            c,
            0,
            t,
        ));
        arith::lemma_wrap_add(x + s, g);
        arith::lemma_wrap_cong(g, u, x + s);
    }
}

} // verus!
