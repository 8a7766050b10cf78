//! What holds of the FrodoPIR operations together.
use vstd::arithmetic::power2::*;
use vstd::prelude::*;

use crate::arith;
use crate::backend::edits;
use crate::backend::frodo::backend;
use crate::backend::frodo::backend::{
    FrodoClientState, FrodoHint, FrodoHintMaterial, FrodoPirBackend, FrodoQuery, FrodoResponse,
    FrodoServerParams, SlotView,
};
use crate::backend::frodo::patching;
use crate::backend::frodo::sampler;
use crate::backend::frodo::scaling;
use crate::backend::matvec;
use crate::backend::{
    IncrementalPirBackend, IndexPirBackend, PrecomputingPirBackend, ResponseRewind,
};
use crate::wire::sparse::Edits;

verus! {

// ---------------------------------------------------------------- noise
/// The number -1, 0 or 1 that a ternary residue stands for.
pub open spec fn signed(x: u32) -> int {
    if x == u32::MAX {
        -1
    } else {
        x as int
    }
}

/// What the error `e` adds to column `j` of a response: the sum over the first `n` rows of
/// the error times the cell.
pub open spec fn noise(e: Seq<u32>, db: Seq<u32>, width: int, j: int, n: int) -> int
    decreases n,
{
    if n <= 0 {
        0
    } else {
        noise(e, db, width, j, n - 1) + signed(e[n - 1]) * arith::cell(db, width, n - 1, j)
    }
}

/// All cells are plaintexts of `plaintext_bits` bits.
pub open spec fn cells_small(db: Seq<u32>, plaintext_bits: u32) -> bool {
    forall|x: int| 0 <= x < db.len() ==> #[trigger] db[x] < pow2(plaintext_bits as nat)
}

/// The sum over the rows of the row of `a` times the secret, times the cell.
spec fn rows_sum(
    a: Seq<u32>,
    l: int,
    s: Seq<u32>,
    db: Seq<u32>,
    w: int,
    j: int,
    n: int,
) -> int
    decreases n,
{
    if n <= 0 {
        0
    } else {
        rows_sum(a, l, s, db, w, j, n - 1) + arith::dot(a, (n - 1) * l, 1, s, 0, 1, 0, l)
            * arith::cell(db, w, n - 1, j)
    }
}

/// The sum over the secret's entries of the entry times the column of `a` times the column
/// of the database.
spec fn cols_sum(
    a: Seq<u32>,
    l: int,
    s: Seq<u32>,
    db: Seq<u32>,
    w: int,
    j: int,
    n: int,
    hi: int,
) -> int
    decreases hi,
{
    if hi <= 0 {
        0
    } else {
        cols_sum(a, l, s, db, w, j, n, hi - 1) + s[hi - 1] * arith::dot(
            a,
            hi - 1,
            l,
            db,
            j,
            w,
            0,
            n,
        )
    }
}

proof fn lemma_cols_sum_step(
    a: Seq<u32>,
    l: int,
    s: Seq<u32>,
    db: Seq<u32>,
    w: int,
    j: int,
    n: int,
    hi: int,
)
    requires
        0 < n,
        0 <= hi <= l,
    ensures
        cols_sum(a, l, s, db, w, j, n, hi) == cols_sum(a, l, s, db, w, j, n - 1, hi) + arith::dot(
            a,
            (n - 1) * l,
            1,
            s,
            0,
            1,
            0,
            hi,
        ) * arith::cell(db, w, n - 1, j),
    decreases hi,
{
    let x = arith::cell(db, w, n - 1, j) as int;
    if hi > 0 {
        let k = hi - 1;
        let i = n - 1;
        lemma_cols_sum_step(a, l, s, db, w, j, n, k);
        let f = a[i * l + k] as int;
        let sk = s[k] as int;
        assert(k + i * l == i * l + k);
        assert(j + i * w == i * w + j);
        assert(arith::term(a, k, l, db, j, w, i) == f * x);
        assert(arith::term(a, i * l, 1, s, 0, 1, k) == f * sk);
        let d = arith::dot(a, k, l, db, j, w, 0, i);
        let t = arith::dot(a, i * l, 1, s, 0, 1, 0, k);
        assert(arith::dot(a, k, l, db, j, w, 0, n) == d + f * x);
        assert(arith::dot(a, i * l, 1, s, 0, 1, 0, hi) == t + f * sk);
        assert(sk * (d + f * x) == sk * d + (f * sk) * x) by (nonlinear_arith);
        assert((t + f * sk) * x == t * x + (f * sk) * x) by (nonlinear_arith);
    } else {
        assert(0 * x == 0) by (nonlinear_arith);
    }
}

/// Both orders of summation agree.
proof fn lemma_sums_agree(
    a: Seq<u32>,
    l: int,
    s: Seq<u32>,
    db: Seq<u32>,
    w: int,
    j: int,
    n: int,
)
    requires
        0 <= n,
        0 <= l,
    ensures
        rows_sum(a, l, s, db, w, j, n) == cols_sum(a, l, s, db, w, j, n, l),
    decreases n,
{
    if n > 0 {
        lemma_sums_agree(a, l, s, db, w, j, n - 1);
        lemma_cols_sum_step(a, l, s, db, w, j, n, l);
    } else {
        lemma_cols_sum_nothing(a, l, s, db, w, j, l);
    }
}

proof fn lemma_cols_sum_nothing(
    a: Seq<u32>,
    l: int,
    s: Seq<u32>,
    db: Seq<u32>,
    w: int,
    j: int,
    hi: int,
)
    ensures
        cols_sum(a, l, s, db, w, j, 0, hi) == 0,
    decreases hi,
{
    if hi > 0 {
        lemma_cols_sum_nothing(a, l, s, db, w, j, hi - 1);
        assert(s[hi - 1] * 0 == 0);
    }
}

/// The mask under the hint of a database is the secret's sum over its columns.
proof fn lemma_mask_is_cols_sum(
    a: Seq<u32>,
    l: int,
    s: Seq<u32>,
    db: Seq<u32>,
    h: Seq<u32>,
    w: int,
    j: int,
    n: int,
    hi: int,
)
    requires
        edits::is_hint(h, a, db, l, w, n),
        0 <= j < w,
        0 <= hi <= l,
    ensures
        arith::wrap(arith::dot(s, 0, 1, h, j, w, 0, hi)) == arith::wrap(
            cols_sum(a, l, s, db, w, j, n, hi),
        ),
    decreases hi,
{
    if hi > 0 {
        let k = hi - 1;
        lemma_mask_is_cols_sum(a, l, s, db, h, w, j, n, k);
        let y = arith::cell(h, w, k, j) as int;
        let d = arith::dot(a, k, l, db, j, w, 0, n);
        assert(y == arith::wrap(d));
        let sk = s[k] as int;
        assert(j + k * w == k * w + j);
        assert(arith::term(s, 0, 1, h, j, w, k) == sk * y);
        arith::lemma_wrap_mul(sk, d);
        let x = arith::dot(s, 0, 1, h, j, w, 0, k);
        let u = cols_sum(a, l, s, db, w, j, n, k);
        arith::lemma_wrap_cong(x, u, sk * y);
        arith::lemma_wrap_cong(sk * y, sk * d, u);
    }
}

/// A column of the response, before the mask is taken off.
proof fn lemma_response(
    a: Seq<u32>,
    l: int,
    s: Seq<u32>,
    e: Seq<u32>,
    db: Seq<u32>,
    w: int,
    j: int,
    row: int,
    delta: int,
    q: Seq<u32>,
    n: int,
)
    requires
        0 <= n <= e.len() == q.len(),
        0 <= row < e.len(),
        s.len() == l,
        backend::all_ternary(e),
        q == matvec::matvec_rows(e, a, s).update(
            row,
            arith::wrap(matvec::matvec_rows(e, a, s)[row] + delta),
        ),
    ensures
        arith::wrap(arith::dot(q, 0, 1, db, j, w, 0, n)) == arith::wrap(
            noise(e, db, w, j, n) + rows_sum(a, l, s, db, w, j, n) + if row < n {
                delta * arith::cell(db, w, row, j)
            } else {
                0
            },
        ),
    decreases n,
{
    if n > 0 {
        let i = n - 1;
        lemma_response(a, l, s, e, db, w, j, row, delta, q, i);
        let x = arith::cell(db, w, i, j) as int;
        let t = arith::dot(a, i * l, 1, s, 0, 1, 0, l);
        assert(j + i * w == i * w + j);
        assert(arith::term(q, 0, 1, db, j, w, i) == q[i] * x);
        let m = if row == i {
            delta
        } else {
            0
        };
        assert(sampler::is_ternary(e[i]));
        let g = signed(e[i]);
        assert(arith::wrap(e[i] as int) == arith::wrap(g));
        assert(q[i] == arith::wrap(g + t + m)) by {
            assert(matvec::matvec_rows(e, a, s)[i] == arith::wrap(e[i] + t));
            arith::lemma_wrap_cong(e[i] as int, g, t);
            arith::lemma_wrap_add(g + t, m);
        }
        arith::lemma_wrap_mul(g + t + m, x);
        assert((g + t + m) * x == g * x + t * x + m * x) by (nonlinear_arith);
        let before = noise(e, db, w, j, i) + rows_sum(a, l, s, db, w, j, i) + if row < i {
            delta * arith::cell(db, w, row, j)
        } else {
            0
        };
        arith::lemma_wrap_cong(arith::dot(q, 0, 1, db, j, w, 0, i), before, q[i] * x);
        arith::lemma_wrap_cong(q[i] * x, g * x + t * x + m * x, before);
        if m == 0 {
            assert(m * x == 0) by (nonlinear_arith)
                requires
                    m == 0,
            ;
        }
    }
}

// ---------------------------------------------------------------- retrieval
/// A query, answered and decoded, gives the cells of its row wherever the noise stays
/// below half the scale.
pub proof fn law_retrieval(
    p: FrodoServerParams,
    db: Seq<u32>,
    h: Seq<u32>,
    slot: SlotView,
    e: Seq<u32>,
    row: int,
)
    requires
        backend::params_ok(p),
        0 <= row < p.n_rows,
        db.len() == p.n_rows * p.row_width,
        cells_small(db, p.params.plaintext_bits),
        edits::is_hint(
            h,
            backend::public_matrix(p),
            db,
            p.params.lwe_dim as int,
            p.row_width as int,
            p.n_rows as int,
        ),
        backend::query_part(p, slot, e),
        forall|j: int|
            0 <= j < p.row_width ==> -(scaling::delta(p.params.plaintext_bits) / 2)
                <= #[trigger] noise(e, db, p.row_width as int, j, p.n_rows as int)
                < scaling::delta(p.params.plaintext_bits) / 2,
    ensures
        backend::decode(
            backend::answer(
                backend::marked(slot.b, row, p.params.plaintext_bits),
                db,
                p.row_width as int,
            ),
            slot.secret,
            h,
            p.params.lwe_dim as int,
            p.row_width as int,
            p.params.plaintext_bits,
        ) == db.subrange(row * p.row_width, (row + 1) * p.row_width),
{
    let n = p.n_rows as int;
    let l = p.params.lwe_dim as int;
    let w = p.row_width as int;
    let pb = p.params.plaintext_bits;
    let a = backend::public_matrix(p);
    let s = slot.secret;
    let q = backend::marked(slot.b, row, pb);
    let delta = scaling::delta(pb);
    let resp = backend::answer(q, db, w);
    let out = backend::decode(resp, s, h, l, w, pb);
    assert((row + 1) * w == row * w + w) by (nonlinear_arith);
    assert(0 <= row * w && (row + 1) * w <= n * w) by (nonlinear_arith)
        requires
            0 <= row,
            row + 1 <= n,
            0 <= w,
    ;
    assert forall|j: int| 0 <= j < w implies #[trigger] out[j] == db[row * w + j] by {
        arith::lemma_cell(row, j, n, w);
        let x = arith::cell(db, w, row, j) as int;
        assert(db[row * w + j] < pow2(pb as nat));
        let z = noise(e, db, w, j, n);
        let r = rows_sum(a, l, s, db, w, j, n);
        lemma_response(a, l, s, e, db, w, j, row, delta, q, n);
        lemma_sums_agree(a, l, s, db, w, j, n);
        lemma_mask_is_cols_sum(a, l, s, db, h, w, j, n, l);
        let m = arith::dot(s, 0, 1, h, j, w, 0, l);
        let y = arith::dot(q, 0, 1, db, j, w, 0, n);
        assert(arith::wrap(m) == arith::wrap(r));
        assert(arith::wrap(y) == arith::wrap(z + r + delta * x));
        assert(resp[j] == arith::wrap(y));
        arith::lemma_wrap_add(y, -(arith::wrap(m) as int));
        arith::lemma_wrap_add(y, m);
        arith::lemma_wrap_cong(y, z + r + delta * x, -m);
        arith::lemma_wrap_cong(m, r, z + r + delta * x);
        assert(delta * x == x * delta) by (nonlinear_arith);
        assert(arith::wrap(resp[j] - patching::mask(s, h, l, w)[j]) == arith::wrap(
            x * delta + z,
        ));
        scaling::law_rounding_removes_noise(x, z, pb);
    }
    assert(out =~= db.subrange(row * w, (row + 1) * w));
}

/// Ternary errors over small cells cannot add more than one cell's worth per row.
pub proof fn lemma_noise_bound(e: Seq<u32>, db: Seq<u32>, w: int, rows: int, j: int, n: int, m: int)
    requires
        0 <= n <= rows,
        e.len() == rows,
        0 <= j < w,
        db.len() == rows * w,
        backend::all_ternary(e),
        forall|x: int| 0 <= x < db.len() ==> #[trigger] db[x] <= m,
        0 <= m,
    ensures
        -(n * m) <= noise(e, db, w, j, n) <= n * m,
    decreases n,
{
    if n > 0 {
        lemma_noise_bound(e, db, w, rows, j, n - 1, m);
        arith::lemma_cell(n - 1, j, rows, w);
        let x = arith::cell(db, w, n - 1, j) as int;
        assert(x <= m);
        let g = signed(e[n - 1]);
        assert(sampler::is_ternary(e[n - 1]));
        assert(-m <= g * x <= m) by (nonlinear_arith)
            requires
                -1 <= g <= 1,
                0 <= x <= m,
        ;
        assert(n * m == (n - 1) * m + m) by (nonlinear_arith);
    } else {
        assert(n * m == 0) by (nonlinear_arith)
            requires
                n == 0,
        ;
    }
}

/// Whatever is drawn: in a segment with few enough rows for the scale, decoding the answer
/// to a query gives the row that was queried.
pub proof fn law_query_answer_decode(
    before: FrodoClientState,
    row: u32,
    query: FrodoQuery,
    after: FrodoClientState,
    db: Seq<u32>,
    response: FrodoResponse,
)
    requires
        FrodoPirBackend::client_ok(before),
        FrodoPirBackend::has_row(before, row),
        FrodoPirBackend::is_query(before, row, query, after),
        FrodoPirBackend::client_ok(after),
        db.len() == before.server_params().n_rows * before.server_params().row_width,
        cells_small(db, before.server_params().params.plaintext_bits),
        edits::is_hint(
            before.hint_cells(),
            before.matrix(),
            db,
            before.server_params().params.lwe_dim as int,
            before.server_params().row_width as int,
            before.server_params().n_rows as int,
        ),
        FrodoPirBackend::is_answer(
            before.server_params(),
            db,
            before.server_params().n_rows,
            before.server_params().row_width,
            query,
            response,
        ),
        before.server_params().n_rows * (pow2(
            before.server_params().params.plaintext_bits as nat,
        ) - 1) < scaling::delta(before.server_params().params.plaintext_bits) / 2,
    ensures
        FrodoPirBackend::decoded(after, response) == db.subrange(
            row * before.server_params().row_width,
            (row + 1) * before.server_params().row_width,
        ),
{
    let p = before.server_params();
    let slot = after.pending()->0;
    let e = choose|e: Seq<u32>| #[trigger] backend::query_part(p, slot, e);
    assert(backend::slot_ok(p, after.hint_cells(), slot));
    assert(backend::query_part(p, slot, e));
    let n = p.n_rows as int;
    let w = p.row_width as int;
    let m = pow2(p.params.plaintext_bits as nat) - 1;
    scaling::lemma_delta(p.params.plaintext_bits);
    assert forall|j: int| 0 <= j < w implies -(scaling::delta(p.params.plaintext_bits) / 2)
        <= #[trigger] noise(e, db, w, j, n) < scaling::delta(p.params.plaintext_bits) / 2 by {
        assert forall|x: int| 0 <= x < db.len() implies #[trigger] db[x] <= m by {
            assert(db[x] < pow2(p.params.plaintext_bits as nat));
        }
        lemma_noise_bound(e, db, w, n, j, n, m);
    }
    law_retrieval(p, db, before.hint_cells(), slot, e, row as int);
    assert(query.b@.len() == n);
}

// ---------------------------------------------------------------- rewinding
/// A response to the current database, rewound by the edits that led to it, is the response
/// to the database before the edits.
pub proof fn law_rewind(
    state: FrodoClientState,
    query: FrodoQuery,
    before: FrodoResponse,
    after: FrodoResponse,
    db: Seq<u32>,
    width: int,
    rows: Edits,
)
    requires
        0 <= width,
        db.len() == query.b@.len() * width,
        edits::edits_fit(rows, query.b@.len() as int, width),
        before.a@ == backend::answer(query.b@, edits::patched_db(db, width, rows), width),
        FrodoPirBackend::rewound(state, query, before, rows, after),
    ensures
        after.a@ == backend::answer(query.b@, db, width),
{
    let q = query.b@;
    let n = q.len() as int;
    let db2 = edits::patched_db(db, width, rows);
    assert forall|j: int| 0 <= j < width implies #[trigger] after.a@[j] == backend::answer(q, db, width)[j] by {
        edits::lemma_patched_dot(q, db, 1, width, n, rows, 0, j);
        let d = arith::dot(q, 0, 1, db, j, width, 0, n);
        let d2 = arith::dot(q, 0, 1, db2, j, width, 0, n);
        let ps = edits::patch_sum(q, 1, rows, 0, j);
        assert(before.a@[j] == arith::wrap(d2));
        arith::lemma_wrap_add(d2, -ps);
        arith::lemma_wrap_cong(d2, d + ps, -ps);
    }
    assert(after.a@ =~= backend::answer(q, db, width));
}

// ---------------------------------------------------------------- patches
/// Server and client stay in step: patching both leaves them with the same hint, whichever
/// way each of them patches.
pub proof fn law_client_follows_server(
    params: FrodoServerParams,
    material: FrodoHintMaterial,
    hint: FrodoHint,
    hint2: FrodoHint,
    state: FrodoClientState,
    state2: FrodoClientState,
    rows: Edits,
)
    requires
        FrodoPirBackend::client_ok(state),
        params == state.server_params(),
        FrodoPirBackend::is_expansion(params, material),
        hint.data@ == state.hint_cells(),
        FrodoPirBackend::hint_patched(params, material, hint, rows, hint2),
        FrodoPirBackend::client_patched(state, rows, state2),
    ensures
        hint2.data@ == state2.hint_cells(),
{
    edits::law_patched_unique(
        hint2.data@,
        state2.hint_cells(),
        hint.data@,
        material.a@,
        params.params.lwe_dim as int,
        params.row_width as int,
        rows,
    );
}

/// A patched client decodes as a client that was set up with the hint of the patched
/// database would.
pub proof fn law_patched_client_decodes_patched_db(
    state: FrodoClientState,
    state2: FrodoClientState,
    db: Seq<u32>,
    rows: Edits,
)
    requires
        FrodoPirBackend::client_ok(state),
        FrodoPirBackend::can_patch_client(state, rows),
        FrodoPirBackend::client_patched(state, rows, state2),
        db.len() == state.server_params().n_rows * state.server_params().row_width,
        edits::is_hint(
            state.hint_cells(),
            state.matrix(),
            db,
            state.server_params().params.lwe_dim as int,
            state.server_params().row_width as int,
            state.server_params().n_rows as int,
        ),
    ensures
        edits::is_hint(
            state2.hint_cells(),
            state2.matrix(),
            edits::patched_db(db, state.server_params().row_width as int, rows),
            state.server_params().params.lwe_dim as int,
            state.server_params().row_width as int,
            state.server_params().n_rows as int,
        ),
{
    edits::law_patch_is_recompute(
        state2.hint_cells(),
        state.hint_cells(),
        state.matrix(),
        db,
        state.server_params().params.lwe_dim as int,
        state.server_params().row_width as int,
        state.server_params().n_rows as int,
        rows,
    );
}

// ---------------------------------------------------------------- precomputation
/// Attaching decode material a second time changes nothing.
pub proof fn law_precompute_decodes_idempotent(
    a: FrodoClientState,
    b: FrodoClientState,
    c: FrodoClientState,
)
    requires
        FrodoPirBackend::decodes_prepared(a, b),
        FrodoPirBackend::decodes_prepared(b, c),
    ensures
        backend::same_segment(b, c),
        c.slots() == b.slots(),
        c.pending() == b.pending(),
{
    assert(c.slots() =~= b.slots());
}

/// Attaching decode material does not change what a response decodes to.
pub proof fn law_precompute_keeps_decoding(
    a: FrodoClientState,
    b: FrodoClientState,
    response: FrodoResponse,
)
    requires
        FrodoPirBackend::decodes_prepared(a, b),
        FrodoPirBackend::can_decode(a, response),
    ensures
        FrodoPirBackend::can_decode(b, response),
        FrodoPirBackend::decoded(b, response) == FrodoPirBackend::decoded(a, response),
{
}

} // verus!
