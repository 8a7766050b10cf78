//! What a client gets out of a server's responses.
//!
//! A query of a segment hides a unit vector: the secret times the public matrix, plus an
//! error, plus the scale at the wanted row. Taking the secret times the hint off the response
//! leaves the scaled row and the error's share, which rounding removes.
use vstd::arithmetic::power2::*;
use vstd::prelude::*;

use crate::arith;
use crate::backend::frodo::backend;
use crate::backend::frodo::laws;
use crate::backend::frodo::sampler;
use crate::backend::frodo::scaling;
use crate::cuckoo_store::model;
use crate::cuckoo_store::row;
use crate::matrix::Matrix;
use crate::params::FilterParams;
use crate::server;
use crate::server::respond;
use crate::server::update;
use crate::server::Server;

verus! {

/// The secret `s` times column `t` of the matrix.
pub open spec fn secret_by_column(s: Seq<u32>, m: Matrix, t: int) -> int {
    arith::dot(s, 0, 1, m.spec_elems(), t, m.spec_cols() as int, 0, m.spec_rows() as int)
}

/// The query of row `i` under the secret `s` and the error `e`.
pub open spec fn hidden_unit(s: Seq<u32>, a: Matrix, e: Seq<u32>, i: int, bits: u32) -> Seq<u32> {
    Seq::new(
        a.spec_cols() as nat,
        |t: int|
            arith::wrap(
                secret_by_column(s, a, t) + e[t] + if t == i {
                    scaling::delta(bits)
                } else {
                    0
                },
            ),
    )
}

/// The response without the mask: the secret times the hint is taken off.
pub open spec fn unmasked(r: Seq<u32>, s: Seq<u32>, h: Matrix) -> Seq<u32> {
    Seq::new(r.len(), |c: int| arith::wrap(r[c] - arith::wrap(secret_by_column(s, h, c))))
}

/// The sum over the first `n` rows of the database of the secret times the row's column of
/// the public matrix, times the row's cell.
spec fn by_rows(s: Seq<u32>, a: Matrix, d: Matrix, c: int, n: int) -> int
    decreases n,
{
    if n <= 0 {
        0
    } else {
        by_rows(s, a, d, c, n - 1) + secret_by_column(s, a, n - 1) * d.at(n - 1, c)
    }
}

/// The sum over the first `hi` entries of the secret of the entry times the row of the public
/// matrix times the first `n` cells of the database column.
spec fn by_entries(s: Seq<u32>, a: Matrix, d: Matrix, c: int, n: int, hi: int) -> int
    decreases hi,
{
    if hi <= 0 {
        0
    } else {
        by_entries(s, a, d, c, n, hi - 1) + s[hi - 1] * arith::dot(
            a.spec_elems(),
            (hi - 1) * a.spec_cols(),
            1,
            d.spec_elems(),
            c,
            d.spec_cols() as int,
            0,
            n,
        )
    }
}

proof fn lemma_by_entries_step(s: Seq<u32>, a: Matrix, d: Matrix, c: int, n: int, hi: int)
    requires
        0 < n,
        0 <= hi,
    ensures
        by_entries(s, a, d, c, n, hi) == by_entries(s, a, d, c, n - 1, hi) + arith::dot(
            s,
            0,
            1,
            a.spec_elems(),
            n - 1,
            a.spec_cols() as int,
            0,
            hi,
        ) * d.at(n - 1, c),
    decreases hi,
{
    let x = d.at(n - 1, c) as int;
    if hi > 0 {
        let k = hi - 1;
        let t = n - 1;
        let m = a.spec_cols() as int;
        let w = d.spec_cols() as int;
        lemma_by_entries_step(s, a, d, c, n, k);
        let f = a.spec_elems()[k * m + t] as int;
        let sk = s[k] as int;
        assert(t + k * m == k * m + t);
        assert(c + t * w == t * w + c);
        assert(arith::term(a.spec_elems(), k * m, 1, d.spec_elems(), c, w, t) == f * x);
        assert(arith::term(s, 0, 1, a.spec_elems(), t, m, k) == sk * f);
        let y = arith::dot(a.spec_elems(), k * m, 1, d.spec_elems(), c, w, 0, t);
        let z = arith::dot(s, 0, 1, a.spec_elems(), t, m, 0, k);
        assert(sk * (y + f * x) == sk * y + (sk * f) * x) by (nonlinear_arith);
        assert((z + sk * f) * x == z * x + (sk * f) * x) by (nonlinear_arith);
    } else {
        assert(0 * x == 0) by (nonlinear_arith);
    }
}

proof fn lemma_by_entries_nothing(s: Seq<u32>, a: Matrix, d: Matrix, c: int, hi: int)
    ensures
        by_entries(s, a, d, c, 0, hi) == 0,
    decreases hi,
{
    if hi > 0 {
        lemma_by_entries_nothing(s, a, d, c, hi - 1);
        assert(s[hi - 1] * 0 == 0);
    }
}

/// Both orders of summation agree.
proof fn lemma_orders_agree(s: Seq<u32>, a: Matrix, d: Matrix, c: int, n: int)
    requires
        0 <= n,
    ensures
        by_rows(s, a, d, c, n) == by_entries(s, a, d, c, n, a.spec_rows() as int),
    decreases n,
{
    if n > 0 {
        lemma_orders_agree(s, a, d, c, n - 1);
        lemma_by_entries_step(s, a, d, c, n, a.spec_rows() as int);
    } else {
        lemma_by_entries_nothing(s, a, d, c, a.spec_rows() as int);
    }
}

/// The secret times the hint is the secret's sum over the products.
proof fn lemma_mask(s: Seq<u32>, a: Matrix, d: Matrix, h: Matrix, c: int, hi: int)
    requires
        h.is_product(a, d),
        0 <= c < d.spec_cols(),
        0 <= hi <= a.spec_rows(),
    ensures
        arith::wrap(
            arith::dot(s, 0, 1, h.spec_elems(), c, h.spec_cols() as int, 0, hi),
        ) == arith::wrap(by_entries(s, a, d, c, a.spec_cols() as int, hi)),
    decreases hi,
{
    if hi > 0 {
        let k = hi - 1;
        let w = d.spec_cols() as int;
        lemma_mask(s, a, d, h, c, k);
        let y = h.at(k, c) as int;
        let p = update::row_by_column(a, d, k, c);
        assert(y == arith::wrap(p));
        let sk = s[k] as int;
        assert(c + k * w == k * w + c);
        assert(arith::term(s, 0, 1, h.spec_elems(), c, w, k) == sk * y);
        arith::lemma_wrap_mul(sk, p);
        let x = arith::dot(s, 0, 1, h.spec_elems(), c, w, 0, k);
        let u = by_entries(s, a, d, c, a.spec_cols() as int, k);
        arith::lemma_wrap_cong(x, u, sk * y);
        arith::lemma_wrap_cong(sk * y, sk * p, u);
    }
}

/// A column of the response.
proof fn lemma_response(
    s: Seq<u32>,
    a: Matrix,
    d: Matrix,
    e: Seq<u32>,
    i: int,
    bits: u32,
    c: int,
    n: int,
)
    requires
        0 <= n <= a.spec_cols() == e.len(),
        backend::all_ternary(e),
    ensures
        arith::wrap(
            arith::dot(
                hidden_unit(s, a, e, i, bits),
                0,
                1,
                d.spec_elems(),
                c,
                d.spec_cols() as int,
                0,
                n,
            ),
        ) == arith::wrap(
            laws::noise(e, d.spec_elems(), d.spec_cols() as int, c, n) + by_rows(s, a, d, c, n)
                + if 0 <= i < n {
                scaling::delta(bits) * d.at(i, c)
            } else {
                0
            },
        ),
    decreases n,
{
    if n > 0 {
        let t = n - 1;
        let w = d.spec_cols() as int;
        let q = hidden_unit(s, a, e, i, bits);
        lemma_response(s, a, d, e, i, bits, c, t);
        let x = d.at(t, c) as int;
        let f = secret_by_column(s, a, t);
        assert(c + t * w == t * w + c);
        assert(arith::term(q, 0, 1, d.spec_elems(), c, w, t) == q[t] * x);
        let m = if t == i {
            scaling::delta(bits)
        } else {
            0
        };
        assert(sampler::is_ternary(e[t]));
        let g = laws::signed(e[t]);
        assert(arith::wrap(e[t] as int) == arith::wrap(g));
        assert(q[t] == arith::wrap(g + f + m)) by {
            arith::lemma_wrap_cong(e[t] as int, g, f + m);
        }
        arith::lemma_wrap_mul(g + f + m, x);
        assert((g + f + m) * x == g * x + f * x + m * x) by (nonlinear_arith);
        let before = laws::noise(e, d.spec_elems(), w, c, t) + by_rows(s, a, d, c, t) + if 0 <= i
            < t {
            scaling::delta(bits) * d.at(i, c)
        } else {
            0
        };
        arith::lemma_wrap_cong(
            arith::dot(q, 0, 1, d.spec_elems(), c, w, 0, t),
            before,
            q[t] * x,
        );
        arith::lemma_wrap_cong(q[t] * x, g * x + f * x + m * x, before);
        if m == 0 {
            assert(m * x == 0) by (nonlinear_arith)
                requires
                    m == 0,
            ;
        }
    }
}

/// A hidden query of a row, answered and unmasked, rounds to the row, wherever the error's
/// share stays below half the scale.
pub proof fn law_hidden_query_reads_row(
    a: Matrix,
    d: Matrix,
    h: Matrix,
    s: Seq<u32>,
    e: Seq<u32>,
    i: int,
    bits: u32,
    c: int,
)
    requires
        d.wf(),
        a.spec_cols() == d.spec_rows() == e.len(),
        h.is_product(a, d),
        backend::all_ternary(e),
        1 <= bits <= 31,
        0 <= i < d.spec_rows(),
        0 <= c < d.spec_cols(),
        laws::cells_small(d.spec_elems(), bits),
        -(scaling::delta(bits) / 2) <= laws::noise(
            e,
            d.spec_elems(),
            d.spec_cols() as int,
            c,
            d.spec_rows() as int,
        ) < scaling::delta(bits) / 2,
    ensures
        scaling::rounded(
            unmasked(respond::response_row(hidden_unit(s, a, e, i, bits), d), s, h)[c],
            bits,
        ) == d.at(i, c),
{
    let q = hidden_unit(s, a, e, i, bits);
    let n = d.spec_rows() as int;
    let w = d.spec_cols() as int;
    let delta = scaling::delta(bits);
    let x = d.at(i, c) as int;
    let noise = laws::noise(e, d.spec_elems(), w, c, n);
    let r = respond::response_row(q, d)[c] as int;
    let total = by_rows(s, a, d, c, n);
    let mask = secret_by_column(s, h, c);
    lemma_response(s, a, d, e, i, bits, c, n);
    lemma_orders_agree(s, a, d, c, n);
    lemma_mask(s, a, d, h, c, a.spec_rows() as int);
    assert(0 * n == 0) by (nonlinear_arith);
    assert(r == arith::wrap(noise + total + delta * x));
    assert(arith::wrap(mask) == arith::wrap(total));
    arith::lemma_wrap_add(noise + total + delta * x, -(arith::wrap(mask) as int));
    arith::lemma_wrap_add(noise + total + delta * x, total);
    assert(delta * x == x * delta) by (nonlinear_arith);
    arith::lemma_cell(i, c, n, w);
    scaling::law_rounding_removes_noise(x, noise, bits);
}

/// The elements that a client gets for row `r` of segment `j`, with the secret `s` and the
/// error `e`.
pub open spec fn recovered_row(
    server: Server,
    j: int,
    s: Seq<u32>,
    e: Seq<u32>,
    r: int,
) -> Seq<u32> {
    let bits = server.spec_params().mat_elem_bit_len;
    let m = server.spec_segments()[j];
    let answer = respond::response_row(hidden_unit(s, m.a, e, r, bits), m.d);
    Seq::new(
        m.d.spec_cols() as nat,
        |c: int| scaling::rounded(unmasked(answer, s, m.h)[c], bits),
    )
}

/// Within the budget, no ternary error reaches half the scale.
proof fn lemma_budget(params: FilterParams)
    requires
        params.within_budget(),
        1 <= params.mat_elem_bit_len <= 31,
    ensures
        params.spec_seg() * (pow2(params.mat_elem_bit_len as nat) - 1) < scaling::delta(
            params.mat_elem_bit_len,
        ) / 2,
{
    let n = params.spec_seg() as int;
    let p = pow2(params.mat_elem_bit_len as nat) as int;
    let d = scaling::delta(params.mat_elem_bit_len);
    scaling::lemma_delta(params.mat_elem_bit_len);
    assert(2 * (n * p) < d) by (nonlinear_arith)
        requires
            2 * n * (p * p) < d * p,
            p > 0,
    ;
    assert(n * (p - 1) <= n * p) by (nonlinear_arith)
        requires
            n >= 0,
    ;
}

/// The databases of a map hold elements of the plaintext width.
proof fn lemma_cells_small(server: Server, j: int)
    requires
        server.wf(),
        server.synced(),
        0 <= j < server.spec_segments().len(),
    ensures
        laws::cells_small(
            server.spec_segments()[j].d.spec_elems(),
            server.spec_params().mat_elem_bit_len,
        ),
{
    let params = server.spec_params();
    let map = server.spec_map();
    let d = server.spec_segments()[j].d;
    let w = d.spec_cols() as int;
    let b = map.spec_b() as int;
    assert(map.is_matrix(d, j));
    row::lemma_slot_elems(params, b);
    assert forall|x: int| 0 <= x < d.spec_elems().len() implies #[trigger] d.spec_elems()[x]
        < pow2(params.mat_elem_bit_len as nat) by {
        let n = d.spec_rows() as int;
        if w == 0 {
            assert(n * w == 0) by (nonlinear_arith)
                requires
                    w == 0,
            ;
        }
        let l = x / w;
        let c = x % w;
        vstd::arithmetic::div_mod::lemma_fundamental_div_mod(x, w);
        vstd::arithmetic::div_mod::lemma_mod_bound(x, w);
        vstd::arithmetic::div_mod::lemma_div_pos_is_pos(x, w);
        assert(w * l == l * w) by (nonlinear_arith);
        assert(l < n) by (nonlinear_arith)
            requires
                l * w <= x,
                x < n * w,
                w > 0,
        ;
        arith::lemma_cell_row(l, n, w);
        let g = j * params.spec_seg() + l;
        row::law_row_in_range(params, b, map.cells(), g);
        assert(d.spec_row(l) == row::bucket_row(params, b, map.cells(), g));
        assert(d.spec_row(l)[c] == d.spec_elems()[x]);
    }
}

/// Whatever the secret and the ternary error: within the budget a client gets the row that
/// it asked for.
pub proof fn law_row_is_recovered(server: Server, j: int, s: Seq<u32>, e: Seq<u32>, r: int)
    requires
        server.wf(),
        server.synced(),
        server.spec_params().within_budget(),
        0 <= j < server.spec_segments().len(),
        0 <= r < server.spec_params().spec_seg(),
        e.len() == server.spec_params().spec_seg(),
        backend::all_ternary(e),
    ensures
        recovered_row(server, j, s, e, r) == server.spec_segments()[j].d.spec_row(r),
{
    let params = server.spec_params();
    let bits = params.mat_elem_bit_len;
    let m = server.spec_segments()[j];
    let n = params.spec_seg() as int;
    let w = m.d.spec_cols() as int;
    assert(m.shaped(crate::params::LWE_DIMENSION as int, n, params.spec_row_elems_bucket()));
    assert(m.in_step());
    lemma_cells_small(server, j);
    lemma_budget(params);
    scaling::lemma_delta(bits);
    arith::lemma_cell_row(r, n, w);
    let out = recovered_row(server, j, s, e, r);
    let row = m.d.spec_row(r);
    assert forall|c: int| 0 <= c < w implies #[trigger] out[c] == row[c] by {
        let most = pow2(bits as nat) - 1;
        assert forall|x: int| 0 <= x < m.d.spec_elems().len() implies #[trigger] m.d.spec_elems()[x]
            <= most by {
            assert(m.d.spec_elems()[x] < pow2(bits as nat));
        }
        laws::lemma_noise_bound(e, m.d.spec_elems(), w, n, c, n, most);
        law_hidden_query_reads_row(m.a, m.d, m.h, s, e, r, bits, c);
        assert(row[c] == m.d.at(r, c));
    }
    assert(out =~= row);
}

/// Keyword retrieval. Within the budget, and whatever secrets and ternary errors the queries
/// were hidden with: of the rows that a client gets for the candidate buckets of a key, one
/// holds the key's fingerprint together with its value, if the server holds the pair.
pub proof fn law_keyword_is_recovered(
    server: Server,
    key: Seq<u8>,
    value: Seq<u8>,
    secrets: Seq<Seq<u32>>,
    errors: Seq<Seq<u32>>,
)
    requires
        server.wf(),
        server.synced(),
        server.spec_params().within_budget(),
        model::has_pair(
            server.spec_map().cells(),
            server.spec_map().spec_b() as int,
            server.spec_map().buckets_of(key),
            server.spec_map().tag_of(key),
            value,
        ),
        forall|j: int|
            0 <= j < server.spec_segments().len() ==> (#[trigger] errors[j]).len()
                == server.spec_params().spec_seg() && backend::all_ternary(errors[j]),
    ensures
        exists|j: int, i: int|
            0 <= j < server.spec_segments().len() && 0 <= i < server.spec_map().spec_b()
                && #[trigger] server::row_holds(
                server.spec_params(),
                recovered_row(
                    server,
                    j,
                    secrets[j],
                    errors[j],
                    server.spec_map().buckets_of(key)[j] as int
                        % server.spec_params().spec_seg() as int,
                ),
                i,
                server.spec_map().tag_of(key),
                value,
            ),
{
    let seg = server.spec_params().spec_seg() as int;
    let buckets = server.spec_map().buckets_of(key);
    server::law_held_pair_is_in_database(server, key, value);
    let (j, i) = choose|j: int, i: int|
        0 <= j < server.spec_segments().len() && 0 <= i < server.spec_map().spec_b()
            && #[trigger] server::row_holds(
            server.spec_params(),
            server.spec_segments()[j].d.spec_row(buckets[j] as int % seg),
            i,
            server.spec_map().tag_of(key),
            value,
        );
    vstd::arithmetic::div_mod::lemma_mod_bound(buckets[j] as int, seg);
    assert(errors[j].len() == seg);
    law_row_is_recovered(server, j, secrets[j], errors[j], buckets[j] as int % seg);
    assert(server::row_holds(
        server.spec_params(),
        recovered_row(server, j, secrets[j], errors[j], buckets[j] as int % seg),
        i,
        server.spec_map().tag_of(key),
        value,
    ));
}

} // verus!
