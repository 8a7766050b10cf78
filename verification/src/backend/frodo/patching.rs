//! Incremental updates of a hint and of what was precomputed from it.
use vstd::prelude::*;

use crate::arith;
use crate::backend::edits;
use crate::backend::patch;
use crate::backend::patch::TouchedRuns;
use crate::backend::HintPatchMode;
use crate::wire::hint_delta;
use crate::wire::sparse::Edits;

verus! {

/// Patches the hint cell by cell: per edited row, only the touched columns are visited.
pub fn apply_patch_entry_level(
    a: &[u32],
    lwe_dim: u32,
    n_rows: u32,
    row_width: u32,
    hint: &mut [u32],
    row_deltas: &[(u32, Vec<(u16, i64)>)],
)
    requires
        a@.len() == n_rows * lwe_dim,
        old(hint)@.len() == lwe_dim * row_width,
        edits::edits_fit(
            hint_delta::edits_view(row_deltas@),
            n_rows as int,
            row_width as int,
        ),
    ensures
        edits::is_patched(
            final(hint)@,
            old(hint)@,
            a@,
            lwe_dim as int,
            row_width as int,
            hint_delta::edits_view(row_deltas@),
        ),
{
    let ghost l = lwe_dim as int;
    let ghost w = row_width as int;
    let ghost h0 = hint@;
    let ghost all = hint_delta::edits_view(row_deltas@);
    if row_width == 0 {
        return;
    }
    let width: usize = row_width as usize;
    let dim: usize = lwe_dim as usize;
    let mut touched: TouchedRuns = TouchedRuns::new();
    let mut i: usize = 0;
    proof {
        assert(all.take(0) =~= Seq::empty());
        lemma_patched_nothing(h0, a@, l, w);
    }
    while i < row_deltas.len()
        invariant
            i <= row_deltas@.len(),
            l == lwe_dim == dim,
            w == row_width == width,
            w > 0,
            a@.len() == n_rows * lwe_dim,
            hint@.len() == h0.len() == l * w,
            all == hint_delta::edits_view(row_deltas@),
            edits::edits_fit(all, n_rows as int, w),
            touched.wf(),
            edits::is_patched(hint@, h0, a@, l, w, all.take(i as int)),
        decreases row_deltas@.len() - i,
    {
        let row: usize = row_deltas[i].0 as usize;
        let cells: &Vec<(u16, i64)> = &row_deltas[i].1;
        let ghost h1 = hint@;
        let ghost edit = all[i as int];
        let column = |off: u16| -> (c: usize)
            ensures
                c == off,
            { off as usize };
        proof {
            assert(edit == (row_deltas@[i as int].0, cells@));
            assert(edits::cells_fit(cells@, w));
            assert forall|off: u16, c: usize| #[trigger]
                call_ensures(column, (off,), c) implies c == patch::column_of(column, off) by {
                let chosen = choose|x: usize| call_ensures(column, (off,), x);
                assert(call_ensures(column, (off,), chosen));
            }
        }
        touched.rebuild(cells.as_slice(), column);
        proof {
            assert(patch::is_column_fn(column, |off: u16| off as int));
            assert forall|c: int| #[trigger] touched.delta(c) == arith::wrap(
                edits::cell_total(cells@, c),
            ) by {
                let total = patch::column_total(cells@, |off: u16| off as int, c);
            }
            assert forall|c: int| c >= w implies #[trigger] touched.delta(c) == 0 by {
                edits::lemma_cell_total_outside(cells@, w, c);
            }
            touched.lemma_within(w);
            arith::lemma_cell(row as int, 0, n_rows as int, if l == 0 { 1 } else { l });
            assert(all.take(i + 1) =~= all.take(i as int).push(edit));
        }
        if !touched.is_empty() {
            proof {
                assert(a.len() == a@.len());
                lemma_row_bounds(row as int, n_rows as int, l);
            }
            let a_row: &[u32] = vstd::slice::slice_subrange(a, row * dim, (row + 1) * dim);
            touched.apply(a_row, hint, width);
            proof {
                assert forall|k: int, c: int|
                    0 <= k < l && 0 <= c < w implies #[trigger] arith::cell(hint@, w, k, c)
                    == arith::wrap(
                    arith::cell(h1, w, k, c) + arith::cell(a@, l, edit.0 as int, k) * arith::wrap(
                        edits::cell_total(edit.1, c),
                    ),
                ) by {
                    assert(a_row@[k] == a@[row * l + k]);
                    assert(touched.delta(c) == arith::wrap(edits::cell_total(edit.1, c)));
                }
            }
        } else {
            proof {
                assert forall|k: int, c: int|
                    0 <= k < l && 0 <= c < w implies #[trigger] arith::cell(hint@, w, k, c)
                    == arith::wrap(
                    arith::cell(h1, w, k, c) + arith::cell(a@, l, edit.0 as int, k) * arith::wrap(
                        edits::cell_total(edit.1, c),
                    ),
                ) by {
                    assert(touched.delta(c) == 0);
                    assert(arith::cell(a@, l, edit.0 as int, k) * 0 == 0);
                    arith::lemma_wrap_id(arith::cell(h1, w, k, c));
                }
            }
        }
        proof {
            edits::lemma_patched_step(h0, h1, hint@, a@, l, w, all.take(i as int), edit);
        }
        i = i + 1;
    }
    proof {
        assert(all.take(all.len() as int) =~= all);
    }
}

/// No edits leave the hint as it is.
proof fn lemma_patched_nothing(h: Seq<u32>, a: Seq<u32>, l: int, w: int)
    ensures
        edits::is_patched(h, h, a, l, w, Seq::empty()),
{
    assert forall|k: int, c: int| 0 <= k < l && 0 <= c < w implies #[trigger] arith::cell(h, w, k, c)
        == arith::wrap(
        arith::cell(h, w, k, c) + edits::patch_sum(a, l, Seq::empty(), k, c),
    ) by {
        arith::lemma_wrap_id(arith::cell(h, w, k, c));
    }
}

/// A row lies within the matrix.
proof fn lemma_row_bounds(row: int, n: int, w: int)
    requires
        0 <= row < n,
        0 <= w,
    ensures
        0 <= row * w <= (row + 1) * w <= n * w,
        (row + 1) * w - row * w == w,
{
    assert(0 <= row * w) by (nonlinear_arith)
        requires
            0 <= row,
            0 <= w,
    ;
    assert((row + 1) * w == row * w + w) by (nonlinear_arith);
    assert((row + 1) * w <= n * w) by (nonlinear_arith)
        requires
            row + 1 <= n,
            0 <= w,
    ;
}

/// The sparse edits of a block of rows as dense rows, and the rows of `a` that they belong
/// to.
fn densify(
    a: &[u32],
    dim: usize,
    width: usize,
    Ghost(n_rows): Ghost<int>,
    row_deltas: &[(u32, Vec<(u16, i64)>)],
    lo: usize,
    hi: usize,
    delta: &mut Vec<u32>,
    a_sel: &mut Vec<u32>,
)
    requires
        n_rows <= u32::MAX,
        a@.len() == n_rows * dim,
        edits::edits_fit(hint_delta::edits_view(row_deltas@), n_rows, width as int),
        lo <= hi <= row_deltas@.len(),
        (hi - lo) * width <= usize::MAX,
        (hi - lo) * dim <= usize::MAX,
    ensures
        final(delta)@.len() == (hi - lo) * width,
        final(a_sel)@.len() == (hi - lo) * dim,
        forall|r: int, k: int|
            0 <= r < hi - lo && 0 <= k < dim ==> #[trigger] arith::cell(
                final(a_sel)@,
                dim as int,
                r,
                k,
            ) == arith::cell(
                a@,
                dim as int,
                hint_delta::edits_view(row_deltas@)[lo + r].0 as int,
                k,
            ),
        forall|r: int, j: int|
            0 <= r < hi - lo && 0 <= j < width ==> #[trigger] arith::cell(
                final(delta)@,
                width as int,
                r,
                j,
            ) == arith::wrap(
                edits::cell_total(hint_delta::edits_view(row_deltas@)[lo + r].1, j),
            ),
{
    let ghost all = hint_delta::edits_view(row_deltas@);
    let ghost l = dim as int;
    let ghost w = width as int;
    delta.clear();
    a_sel.clear();
    let mut i: usize = lo;
    assert(a.len() == a@.len());
    proof {
        assert(0 * w == 0) by (nonlinear_arith);
        assert(0 * l == 0) by (nonlinear_arith);
    }
    while i < hi
        invariant
            lo <= i <= hi <= row_deltas@.len(),
            l == dim,
            w == width,
            n_rows <= u32::MAX,
            a@.len() == n_rows * dim <= usize::MAX,
            all == hint_delta::edits_view(row_deltas@),
            edits::edits_fit(all, n_rows, w),
            (hi - lo) * width <= usize::MAX,
            (hi - lo) * dim <= usize::MAX,
            delta@.len() == (i - lo) * w,
            a_sel@.len() == (i - lo) * l,
            forall|r: int, k: int|
                0 <= r < i - lo && 0 <= k < l ==> #[trigger] arith::cell(a_sel@, l, r, k)
                    == arith::cell(a@, l, all[lo + r].0 as int, k),
            forall|r: int, j: int|
                0 <= r < i - lo && 0 <= j < w ==> #[trigger] arith::cell(delta@, w, r, j)
                    == arith::wrap(edits::cell_total(all[lo + r].1, j)),
        decreases hi - i,
    {
        let row: usize = row_deltas[i].0 as usize;
        let cells: &Vec<(u16, i64)> = &row_deltas[i].1;
        let ghost edit = all[i as int];
        let ghost t = i - lo;
        let ghost delta0 = delta@;
        let ghost a0 = a_sel@;
        proof {
            assert(edit == (row_deltas@[i as int].0, cells@));
            assert(edits::cells_fit(cells@, w));
            lemma_row_bounds(row as int, n_rows, l);
            lemma_row_bounds(t, hi - lo, l);
            lemma_row_bounds(t, hi - lo, w);
        }
        append_dense_row(delta, cells.as_slice(), width);
        let a_row: &[u32] = vstd::slice::slice_subrange(a, row * dim, (row + 1) * dim);
        let mut k: usize = 0;
        while k < dim
            invariant
                k <= dim == l == a_row@.len(),
                a_sel@ == a0 + a_row@.take(k as int),
            decreases dim - k,
        {
            a_sel.push(a_row[k]);
            proof {
                assert(a_row@.take(k as int + 1) =~= a_row@.take(k as int).push(a_row@[k as int]));
                assert(a_sel@ =~= a0 + a_row@.take(k as int + 1));
            }
            k = k + 1;
        }
        proof {
            assert forall|r: int, x: int|
                0 <= r < t + 1 && 0 <= x < l implies #[trigger] arith::cell(a_sel@, l, r, x)
                == arith::cell(a@, l, all[lo + r].0 as int, x) by {
                arith::lemma_cell(r, x, t + 1, l);
                if r < t {
                    arith::lemma_cell(r, x, t, l);
                    assert(arith::cell(a0, l, r, x) == arith::cell(
                        a@,
                        l,
                        all[lo + r].0 as int,
                        x,
                    ));
                } else {
                    assert(a_sel@[t * l + x] == a_row@[x]);
                    assert(a_row@[x] == a@[row * l + x]);
                }
            }
            assert forall|r: int, j: int|
                0 <= r < t + 1 && 0 <= j < w implies #[trigger] arith::cell(delta@, w, r, j)
                == arith::wrap(edits::cell_total(all[lo + r].1, j)) by {
                arith::lemma_cell(r, j, t + 1, w);
                if r < t {
                    arith::lemma_cell(r, j, t, w);
                    assert(arith::cell(delta0, w, r, j) == arith::wrap(
                        edits::cell_total(all[lo + r].1, j),
                    ));
                    assert(delta@[r * w + j] == delta0[r * w + j]);
                } else {
                    assert(delta@[delta0.len() + j] == arith::wrap(edits::cell_total(cells@, j)));
                }
            }
        }
        i = i + 1;
    }
}

/// Appends one row of `width` cells with the sums of the sparse edits.
fn append_dense_row(delta: &mut Vec<u32>, cells: &[(u16, i64)], width: usize)
    requires
        edits::cells_fit(cells@, width as int),
        old(delta)@.len() + width <= usize::MAX,
    ensures
        final(delta)@.len() == old(delta)@.len() + width,
        forall|x: int| 0 <= x < old(delta)@.len() ==> #[trigger] final(delta)@[x] == old(delta)@[x],
        forall|j: int|
            0 <= j < width ==> #[trigger] final(delta)@[old(delta)@.len() + j] == arith::wrap(
                edits::cell_total(cells@, j),
            ),
{
    let base: usize = delta.len();
    let ghost d0 = delta@;
    let mut z: usize = 0;
    while z < width
        invariant
            z <= width,
            base == d0.len(),
            base + width <= usize::MAX,
            delta@.len() == base + z,
            forall|x: int| 0 <= x < base ==> #[trigger] delta@[x] == d0[x],
            forall|x: int| base <= x < base + z ==> #[trigger] delta@[x] == 0,
        decreases width - z,
    {
        delta.push(0);
        z = z + 1;
    }
    let mut y: usize = 0;
    proof {
        assert(cells@.take(0) =~= Seq::empty());
    }
    while y < cells.len()
        invariant
            y <= cells@.len(),
            base == d0.len(),
            base + width <= usize::MAX,
            delta@.len() == base + width,
            edits::cells_fit(cells@, width as int),
            forall|x: int| 0 <= x < base ==> #[trigger] delta@[x] == d0[x],
            forall|x: int|
                base <= x < base + width ==> #[trigger] delta@[x] == arith::wrap(
                    edits::cell_total(cells@.take(y as int), x - base),
                ),
        decreases cells@.len() - y,
    {
        let off: usize = cells[y].0 as usize;
        let d: i64 = cells[y].1;
        let at: usize = base + off;
        let ghost d1 = delta@;
        let v: u32 = delta[at].wrapping_add(arith::residue(d));
        delta.set(at, v);
        proof {
            let t = cells@.take(y as int);
            let t2 = cells@.take(y as int + 1);
            assert(t2.drop_last() =~= t);
            assert(t2.last() == cells@[y as int]);
            assert forall|x: int| base <= x < base + width implies #[trigger] delta@[x]
                == arith::wrap(edits::cell_total(t2, x - base)) by {
                assert(d1[x] == arith::wrap(edits::cell_total(t, x - base)));
                if x == at {
                    let sum = edits::cell_total(t, x - base);
                    arith::lemma_wrap_add(sum, arith::wrap(d as int) as int);
                    arith::lemma_wrap_add(sum, d as int);
                }
            }
        }
        y = y + 1;
    }
    proof {
        assert(cells@.take(cells@.len() as int) =~= cells@);
        assert forall|j: int| 0 <= j < width implies #[trigger] delta@[d0.len() + j]
            == arith::wrap(edits::cell_total(cells@, j)) by {
            assert(delta@[base + j] == arith::wrap(edits::cell_total(cells@, (base + j) - base)));
        }
    }
}

/// Patches the hint row by row: the edited rows are spread out into dense rows, a batch at
/// a time, and added with one matrix product per batch.
pub fn apply_patch_row_level(
    a: &[u32],
    lwe_dim: u32,
    n_rows: u32,
    row_width: u32,
    hint: &mut [u32],
    row_deltas: &[(u32, Vec<(u16, i64)>)],
)
    requires
        a@.len() == n_rows * lwe_dim,
        old(hint)@.len() == lwe_dim * row_width,
        edits::edits_fit(
            hint_delta::edits_view(row_deltas@),
            n_rows as int,
            row_width as int,
        ),
    ensures
        edits::is_patched(
            final(hint)@,
            old(hint)@,
            a@,
            lwe_dim as int,
            row_width as int,
            hint_delta::edits_view(row_deltas@),
        ),
{
    let ghost l = lwe_dim as int;
    let ghost w = row_width as int;
    let ghost h0 = hint@;
    let ghost all = hint_delta::edits_view(row_deltas@);
    let width: usize = row_width as usize;
    let dim: usize = lwe_dim as usize;
    let n: usize = row_deltas.len();
    let batch: usize = patch::row_level_batch_rows(width, dim);
    let mut delta: Vec<u32> = Vec::new();
    let mut a_sel: Vec<u32> = Vec::new();
    let mut lo: usize = 0;
    proof {
        assert(all.take(0) =~= Seq::empty());
        lemma_patched_nothing(h0, a@, l, w);
    }
    while lo < n
        invariant
            lo <= n == row_deltas@.len(),
            l == lwe_dim == dim,
            w == row_width == width,
            batch >= 1,
            batch > 1 ==> batch * (width + dim) <= patch::ROW_LEVEL_BATCH_CELLS,
            a@.len() == n_rows * lwe_dim,
            hint@.len() == h0.len() == l * w,
            all == hint_delta::edits_view(row_deltas@),
            edits::edits_fit(all, n_rows as int, w),
            edits::is_patched(hint@, h0, a@, l, w, all.take(lo as int)),
        decreases n - lo,
    {
        let hi: usize = if n - lo < batch {
            n
        } else {
            lo + batch
        };
        let ghost t = hi - lo;
        proof {
            assert(t * w <= usize::MAX && t * l <= usize::MAX) by {
                if batch > 1 {
                    assert(t * w <= batch * (w + l)) by (nonlinear_arith)
                        requires
                            0 <= t <= batch,
                            0 <= w,
                            0 <= l,
                    ;
                    assert(t * l <= batch * (w + l)) by (nonlinear_arith)
                        requires
                            0 <= t <= batch,
                            0 <= w,
                            0 <= l,
                    ;
                } else {
                    assert(t == 1);
                }
            }
        }
        densify(
            a,
            dim,
            width,
            Ghost(n_rows as int),
            row_deltas,
            lo,
            hi,
            &mut delta,
            &mut a_sel,
        );
        let ghost h1 = hint@;
        proof {
            if l > 0 {
                vstd::arithmetic::div_mod::lemma_div_multiples_vanish(t, l);
                vstd::arithmetic::div_mod::lemma_mod_multiples_basic(t, l);
                vstd::arithmetic::mul::lemma_mul_is_commutative(t, l);
            }
        }
        patch::apply_dense_rows(hint, a_sel.as_slice(), delta.as_slice(), dim, width);
        proof {
            let block = all.subrange(lo as int, hi as int);
            assert(all.take(lo as int) + block =~= all.take(hi as int));
            if l > 0 {
                assert forall|r: int, k: int|
                    0 <= r < block.len() && 0 <= k < l implies #[trigger] arith::cell(
                    a_sel@,
                    l,
                    r,
                    k,
                ) == arith::cell(a@, l, block[r].0 as int, k) by {
                    assert(block[r] == all[lo + r]);
                }
                assert forall|r: int, j: int|
                    0 <= r < block.len() && 0 <= j < w implies #[trigger] arith::cell(
                    delta@,
                    w,
                    r,
                    j,
                ) == arith::wrap(edits::cell_total(block[r].1, j)) by {
                    assert(block[r] == all[lo + r]);
                }
                edits::lemma_patched_block(
                    h0,
                    h1,
                    hint@,
                    a@,
                    l,
                    w,
                    all.take(lo as int),
                    block,
                    a_sel@,
                    delta@,
                );
            }
        }
        lo = hi;
    }
    proof {
        assert(all.take(all.len() as int) =~= all);
    }
}

/// Patches the hint in the given way; the result does not depend on it.
pub fn apply_patch(
    a: &[u32],
    lwe_dim: u32,
    n_rows: u32,
    row_width: u32,
    hint: &mut [u32],
    row_deltas: &[(u32, Vec<(u16, i64)>)],
    mode: HintPatchMode,
)
    requires
        a@.len() == n_rows * lwe_dim,
        old(hint)@.len() == lwe_dim * row_width,
        edits::edits_fit(
            hint_delta::edits_view(row_deltas@),
            n_rows as int,
            row_width as int,
        ),
    ensures
        edits::is_patched(
            final(hint)@,
            old(hint)@,
            a@,
            lwe_dim as int,
            row_width as int,
            hint_delta::edits_view(row_deltas@),
        ),
{
    match mode {
        HintPatchMode::EntryLevel => {
            apply_patch_entry_level(a, lwe_dim, n_rows, row_width, hint, row_deltas);
        },
        HintPatchMode::RowLevel => {
            apply_patch_row_level(a, lwe_dim, n_rows, row_width, hint, row_deltas);
        },
    }
}

// ---------------------------------------------------------------- precomputed decodes
/// What a secret takes off a response: the secret times the hint.
pub open spec fn mask(secret: Seq<u32>, h: Seq<u32>, lwe_dim: int, width: int) -> Seq<u32> {
    Seq::new(
        width as nat,
        |j: int| arith::wrap(arith::dot(secret, 0, 1, h, j, width, 0, lwe_dim)),
    )
}

/// What the edits add to cell `j` of a mask: the sum over the edited rows of the secret
/// times the row of `a`, times the row's delta at `j`.
pub open spec fn mask_sum(
    secret: Seq<u32>,
    a: Seq<u32>,
    lwe_dim: int,
    rows: Edits,
    j: int,
) -> int
    decreases rows.len(),
{
    if rows.len() == 0 {
        0
    } else {
        mask_sum(secret, a, lwe_dim, rows.drop_last(), j) + arith::dot(
            secret,
            0,
            1,
            a,
            rows.last().0 * lwe_dim,
            1,
            0,
            lwe_dim,
        ) * edits::cell_total(rows.last().1, j)
    }
}

/// The sum of `secret[k]` times what the edits add to cell `(k, j)` of the hint.
spec fn weighted(
    secret: Seq<u32>,
    a: Seq<u32>,
    lwe_dim: int,
    rows: Edits,
    j: int,
    hi: int,
) -> int
    decreases hi,
{
    if hi <= 0 {
        0
    } else {
        weighted(secret, a, lwe_dim, rows, j, hi - 1) + secret[hi - 1] * edits::patch_sum(
            a,
            lwe_dim,
            rows,
            hi - 1,
            j,
        )
    }
}

proof fn lemma_weighted_step(
    secret: Seq<u32>,
    a: Seq<u32>,
    lwe_dim: int,
    rows: Edits,
    j: int,
    hi: int,
)
    requires
        rows.len() > 0,
        0 <= hi <= lwe_dim,
    ensures
        weighted(secret, a, lwe_dim, rows, j, hi) == weighted(
            secret,
            a,
            lwe_dim,
            rows.drop_last(),
            j,
            hi,
        ) + arith::dot(secret, 0, 1, a, rows.last().0 * lwe_dim, 1, 0, hi) * edits::cell_total(
            rows.last().1,
            j,
        ),
    decreases hi,
{
    let t = edits::cell_total(rows.last().1, j);
    let base = rows.last().0 * lwe_dim;
    if hi > 0 {
        let k = hi - 1;
        lemma_weighted_step(secret, a, lwe_dim, rows, j, k);
        let s = secret[k] as int;
        let f = arith::cell(a, lwe_dim, rows.last().0 as int, k) as int;
        let p = edits::patch_sum(a, lwe_dim, rows.drop_last(), k, j);
        let d = arith::dot(secret, 0, 1, a, base, 1, 0, k);
        assert(arith::term(secret, 0, 1, a, base, 1, k) == s * f);
        assert(s * (p + f * t) == s * p + (s * f) * t) by (nonlinear_arith);
        assert((d + s * f) * t == d * t + (s * f) * t) by (nonlinear_arith);
    } else {
        assert(0 * t == 0) by (nonlinear_arith);
    }
}

proof fn lemma_weighted_is_mask_sum(
    secret: Seq<u32>,
    a: Seq<u32>,
    lwe_dim: int,
    rows: Edits,
    j: int,
)
    requires
        0 <= lwe_dim,
    ensures
        weighted(secret, a, lwe_dim, rows, j, lwe_dim) == mask_sum(secret, a, lwe_dim, rows, j),
    decreases rows.len(),
{
    if rows.len() > 0 {
        lemma_weighted_step(secret, a, lwe_dim, rows, j, lwe_dim);
        lemma_weighted_is_mask_sum(secret, a, lwe_dim, rows.drop_last(), j);
    } else {
        lemma_weighted_nothing(secret, a, lwe_dim, rows, j, lwe_dim);
    }
}

proof fn lemma_weighted_nothing(
    secret: Seq<u32>,
    a: Seq<u32>,
    lwe_dim: int,
    rows: Edits,
    j: int,
    hi: int,
)
    requires
        rows.len() == 0,
    ensures
        weighted(secret, a, lwe_dim, rows, j, hi) == 0,
    decreases hi,
{
    if hi > 0 {
        lemma_weighted_nothing(secret, a, lwe_dim, rows, j, hi - 1);
        assert(secret[hi - 1] * 0 == 0);
    }
}

proof fn lemma_mask_of_patched(
    secret: Seq<u32>,
    h: Seq<u32>,
    out: Seq<u32>,
    a: Seq<u32>,
    lwe_dim: int,
    width: int,
    rows: Edits,
    j: int,
    hi: int,
)
    requires
        0 <= hi <= lwe_dim,
        0 <= j < width,
        edits::is_patched(out, h, a, lwe_dim, width, rows),
    ensures
        arith::wrap(arith::dot(secret, 0, 1, out, j, width, 0, hi)) == arith::wrap(
            arith::dot(secret, 0, 1, h, j, width, 0, hi) + weighted(
                secret,
                a,
                lwe_dim,
                rows,
                j,
                hi,
            ),
        ),
    decreases hi,
{
    if hi > 0 {
        let k = hi - 1;
        lemma_mask_of_patched(secret, h, out, a, lwe_dim, width, rows, j, k);
        let s = secret[k] as int;
        let x = arith::cell(h, width, k, j) as int;
        let y = arith::cell(out, width, k, j) as int;
        let p = edits::patch_sum(a, lwe_dim, rows, k, j);
        assert(y == arith::wrap(x + p));
        assert(j + k * width == k * width + j);
        assert(arith::term(secret, 0, 1, h, j, width, k) == s * x);
        assert(arith::term(secret, 0, 1, out, j, width, k) == s * y);
        arith::lemma_wrap_mul(s, x + p);
        assert(s * (x + p) == s * x + s * p) by (nonlinear_arith);
        let d1 = arith::dot(secret, 0, 1, out, j, width, 0, k);
        let d0 = arith::dot(secret, 0, 1, h, j, width, 0, k);
        let g = weighted(secret, a, lwe_dim, rows, j, k);
        arith::lemma_wrap_cong(d1, d0 + g, s * y);
        arith::lemma_wrap_cong(s * y, s * x + s * p, d0 + g);
    }
}

/// Patching a mask in lock-step with the hint gives the mask under the patched hint.
pub proof fn law_mask_follows_hint(
    secret: Seq<u32>,
    c: Seq<u32>,
    c2: Seq<u32>,
    h: Seq<u32>,
    h2: Seq<u32>,
    a: Seq<u32>,
    lwe_dim: int,
    width: int,
    rows: Edits,
)
    requires
        0 <= lwe_dim,
        0 <= width,
        c == mask(secret, h, lwe_dim, width),
        edits::is_patched(h2, h, a, lwe_dim, width, rows),
        c2.len() == c.len(),
        forall|j: int|
            0 <= j < width ==> #[trigger] c2[j] == arith::wrap(
                c[j] + mask_sum(secret, a, lwe_dim, rows, j),
            ),
    ensures
        c2 == mask(secret, h2, lwe_dim, width),
{
    assert forall|j: int| 0 <= j < width implies #[trigger] c2[j] == mask(
        secret,
        h2,
        lwe_dim,
        width,
    )[j] by {
        lemma_mask_of_patched(secret, h, h2, a, lwe_dim, width, rows, j, lwe_dim);
        lemma_weighted_is_mask_sum(secret, a, lwe_dim, rows, j);
        arith::lemma_wrap_add(
            arith::dot(secret, 0, 1, h, j, width, 0, lwe_dim),
            mask_sum(secret, a, lwe_dim, rows, j),
        );
    }
    assert(c2 =~= mask(secret, h2, lwe_dim, width));
}

/// The residue of a dot product.
fn dot_mod(x: &[u32], y: &[u32]) -> (d: u32)
    requires
        x@.len() == y@.len(),
    ensures
        d == arith::wrap(arith::dot(x@, 0, 1, y@, 0, 1, 0, x@.len() as int)),
{
    let mut acc: u32 = 0;
    let mut k: usize = 0;
    while k < x.len()
        invariant
            k <= x@.len() == y@.len(),
            acc == arith::wrap(arith::dot(x@, 0, 1, y@, 0, 1, 0, k as int)),
        decreases x@.len() - k,
    {
        proof {
            arith::lemma_wrap_add(
                arith::dot(x@, 0, 1, y@, 0, 1, 0, k as int),
                x@[k as int] * y@[k as int],
            );
            assert(arith::term(x@, 0, 1, y@, 0, 1, k as int) == x@[k as int] * y@[k as int]);
        }
        acc = arith::mac(acc, x[k], y[k]);
        k = k + 1;
    }
    acc
}

/// Patches one mask.
pub fn patch_mask(
    a: &[u32],
    lwe_dim: u32,
    n_rows: u32,
    row_width: u32,
    secret: &[u32],
    c: &mut [u32],
    row_deltas: &[(u32, Vec<(u16, i64)>)],
)
    requires
        a@.len() == n_rows * lwe_dim,
        secret@.len() == lwe_dim,
        old(c)@.len() == row_width,
        edits::edits_fit(
            hint_delta::edits_view(row_deltas@),
            n_rows as int,
            row_width as int,
        ),
    ensures
        final(c)@.len() == old(c)@.len(),
        forall|j: int|
            0 <= j < row_width ==> #[trigger] final(c)@[j] == arith::wrap(
                old(c)@[j] + mask_sum(
                    secret@,
                    a@,
                    lwe_dim as int,
                    hint_delta::edits_view(row_deltas@),
                    j,
                ),
            ),
{
    let ghost all = hint_delta::edits_view(row_deltas@);
    let ghost l = lwe_dim as int;
    let ghost c0 = c@;
    let dim: usize = lwe_dim as usize;
    let mut i: usize = 0;
    assert(a.len() == a@.len());
    proof {
        assert(all.take(0) =~= Seq::empty());
        assert forall|j: int| 0 <= j < row_width implies #[trigger] c@[j] == arith::wrap(
            c0[j] + mask_sum(secret@, a@, l, all.take(0), j),
        ) by {
            arith::lemma_wrap_id(c0[j]);
        }
    }
    while i < row_deltas.len()
        invariant
            i <= row_deltas@.len(),
            l == lwe_dim == dim == secret@.len(),
            a@.len() == n_rows * lwe_dim <= usize::MAX,
            c@.len() == c0.len() == row_width,
            all == hint_delta::edits_view(row_deltas@),
            edits::edits_fit(all, n_rows as int, row_width as int),
            forall|j: int|
                0 <= j < row_width ==> #[trigger] c@[j] == arith::wrap(
                    c0[j] + mask_sum(secret@, a@, l, all.take(i as int), j),
                ),
        decreases row_deltas@.len() - i,
    {
        let row: usize = row_deltas[i].0 as usize;
        let cells: &Vec<(u16, i64)> = &row_deltas[i].1;
        let ghost edit = all[i as int];
        let ghost c1 = c@;
        proof {
            assert(edit == (row_deltas@[i as int].0, cells@));
            assert(edits::cells_fit(cells@, row_width as int));
            lemma_row_bounds(row as int, n_rows as int, l);
        }
        let a_row: &[u32] = vstd::slice::slice_subrange(a, row * dim, (row + 1) * dim);
        let dot: u32 = dot_mod(secret, a_row);
        let ghost full = arith::dot(secret@, 0, 1, a@, row * l, 1, 0, l);
        proof {
            assert forall|t: int| 0 <= t < l implies #[trigger] arith::term(
                secret@,
                0,
                1,
                a_row@,
                0,
                1,
                t,
            ) == arith::term(secret@, 0, 1, a@, row * l, 1, t) by {
                assert(a_row@[t] == a@[row * l + t]);
            }
            arith::lemma_dot_cong(
                secret@,
                0,
                1,
                a_row@,
                0,
                1,
                secret@,
                0,
                1,
                a@,
                row * l,
                1,
                0,
                l,
            );
            assert(dot == arith::wrap(full));
            assert(cells@.take(0) =~= Seq::empty());
            assert forall|j: int| 0 <= j < row_width implies #[trigger] c@[j] == arith::wrap(
                c1[j] + dot * edits::cell_total(cells@.take(0), j),
            ) by {
                arith::lemma_wrap_id(c1[j]);
                assert(dot * 0 == 0);
            }
        }
        let mut y: usize = 0;
        while y < cells.len()
            invariant
                y <= cells@.len(),
                c@.len() == c1.len() == row_width,
                edits::cells_fit(cells@, row_width as int),
                forall|j: int|
                    0 <= j < row_width ==> #[trigger] c@[j] == arith::wrap(
                        c1[j] + dot * edits::cell_total(cells@.take(y as int), j),
                    ),
            decreases cells@.len() - y,
        {
            let off: usize = cells[y].0 as usize;
            let d: i64 = cells[y].1;
            let ghost c2 = c@;
            let ghost t = cells@.take(y as int);
            let ghost t2 = cells@.take(y as int + 1);
            proof {
                assert(t2.drop_last() =~= t);
                assert(t2.last() == cells@[y as int]);
            }
            if d != 0 {
                let v: u32 = arith::mac(c[off], dot, arith::residue(d));
                c[off] = v;
            }
            proof {
                assert forall|j: int| 0 <= j < row_width implies #[trigger] c@[j] == arith::wrap(
                    c1[j] + dot * edits::cell_total(t2, j),
                ) by {
                    let sum = edits::cell_total(t, j);
                    assert(c2[j] == arith::wrap(c1[j] + dot * sum));
                    if j == off && d != 0 {
                        let base = c1[j] + dot * sum;
                        let r = arith::wrap(d as int) as int;
                        arith::lemma_wrap_add(base, dot * r);
                        arith::lemma_wrap_mul(dot as int, d as int);
                        arith::lemma_wrap_cong(dot * r, dot * d, base);
                        assert(dot * (sum + d) == dot * sum + dot * d) by (nonlinear_arith);
                    }
                }
            }
            y = y + 1;
        }
        proof {
            assert(cells@.take(cells@.len() as int) =~= cells@);
            assert(all.take(i + 1).drop_last() =~= all.take(i as int));
            assert(all.take(i + 1).last() == edit);
            assert forall|j: int| 0 <= j < row_width implies #[trigger] c@[j] == arith::wrap(
                c0[j] + mask_sum(secret@, a@, l, all.take(i + 1), j),
            ) by {
                let total = edits::cell_total(cells@, j);
                let base = c0[j] + mask_sum(secret@, a@, l, all.take(i as int), j);
                assert(c1[j] == arith::wrap(base));
                arith::lemma_wrap_add(base, dot * total);
                arith::lemma_wrap_mul(full, total);
                arith::lemma_wrap_cong(dot * total, full * total, base);
            }
        }
        i = i + 1;
    }
    proof {
        assert(all.take(all.len() as int) =~= all);
    }
}

} // verus!
