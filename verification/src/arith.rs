//! Arithmetic modulo `2^32` and strided dot products.
use vstd::arithmetic::div_mod::*;
use vstd::prelude::*;

verus! {

/// The ciphertext modulus `2^32`.
pub open spec fn q() -> int {
    0x1_0000_0000
}

/// The residue of an integer modulo `2^32`.
pub open spec fn wrap(x: int) -> u32 {
    (x % 0x1_0000_0000) as u32
}

pub proof fn lemma_wrap_id(x: u32)
    ensures
        wrap(x as int) == x,
{
}

/// Residues may be reduced before or after an addition.
pub proof fn lemma_wrap_add(a: int, b: int)
    ensures
        wrap(wrap(a) + b) == wrap(a + b),
        wrap(a + wrap(b)) == wrap(a + b),
        wrap(a - wrap(b)) == wrap(a - b),
{
    lemma_add_mod_noop(a % q(), b, q());
    lemma_add_mod_noop(a, b, q());
    lemma_add_mod_noop(a, b % q(), q());
    lemma_mod_twice(a, q());
    lemma_mod_twice(b, q());
    lemma_sub_mod_noop(a, b, q());
    lemma_sub_mod_noop(a, b % q(), q());
}

/// Residues may be reduced before or after a multiplication.
pub proof fn lemma_wrap_mul(a: int, b: int)
    ensures
        wrap(wrap(a) * b) == wrap(a * b),
        wrap(a * wrap(b)) == wrap(a * b),
{
    lemma_mul_mod_noop_left(a, b, q());
    lemma_mul_mod_noop_right(a, b, q());
}

/// Equal residues stay equal under adding the same number.
pub proof fn lemma_wrap_cong(a: int, b: int, c: int)
    requires
        wrap(a) == wrap(b),
    ensures
        wrap(a + c) == wrap(b + c),
        wrap(c + a) == wrap(c + b),
        wrap(c - a) == wrap(c - b),
        wrap(a - c) == wrap(b - c),
{
    lemma_wrap_add(a, c);
    lemma_wrap_add(b, c);
    lemma_wrap_add(c, a);
    lemma_wrap_add(c, b);
    lemma_wrap_add(a, -c);
    lemma_wrap_add(b, -c);
}

/// Adds two residues.
pub fn add_mod(a: u32, b: u32) -> (r: u32)
    ensures
        r == wrap(a + b),
{
    a.wrapping_add(b)
}

/// Subtracts two residues.
pub fn sub_mod(a: u32, b: u32) -> (r: u32)
    ensures
        r == wrap(a - b),
{
    a.wrapping_sub(b)
}

/// Adds a product to a residue.
pub fn mac(acc: u32, a: u32, b: u32) -> (r: u32)
    ensures
        r == wrap(acc + a * b),
{
    proof {
        lemma_wrap_add(acc as int, a * b);
    }
    acc.wrapping_add(a.wrapping_mul(b))
}

/// The product of the elements `x0 + t * xs` of `x` and `y0 + t * ys` of `y`.
pub open spec fn term(
    x: Seq<u32>,
    x0: int,
    xs: int,
    y: Seq<u32>,
    y0: int,
    ys: int,
    t: int,
) -> int {
    x[x0 + t * xs] * y[y0 + t * ys]
}

/// Strided dot product: the sum of `x[x0 + t * xs] * y[y0 + t * ys]` over `lo <= t < hi`.
pub open spec fn dot(
    x: Seq<u32>,
    x0: int,
    xs: int,
    y: Seq<u32>,
    y0: int,
    ys: int,
    lo: int,
    hi: int,
) -> int
    decreases hi - lo,
{
    if hi <= lo {
        0
    } else {
        dot(x, x0, xs, y, y0, ys, lo, hi - 1) + term(x, x0, xs, y, y0, ys, hi - 1)
    }
}

/// A dot product splits at any index.
pub proof fn lemma_dot_split(
    x: Seq<u32>,
    x0: int,
    xs: int,
    y: Seq<u32>,
    y0: int,
    ys: int,
    lo: int,
    mid: int,
    hi: int,
)
    requires
        lo <= mid <= hi,
    ensures
        dot(x, x0, xs, y, y0, ys, lo, hi) == dot(x, x0, xs, y, y0, ys, lo, mid) + dot(
            x,
            x0,
            xs,
            y,
            y0,
            ys,
            mid,
            hi,
        ),
    decreases hi - mid,
{
    if mid < hi {
        lemma_dot_split(x, x0, xs, y, y0, ys, lo, mid, hi - 1);
    }
}

/// Dot products with equal terms are equal.
pub proof fn lemma_dot_cong(
    x: Seq<u32>,
    x0: int,
    xs: int,
    y: Seq<u32>,
    y0: int,
    ys: int,
    u: Seq<u32>,
    u0: int,
    us: int,
    v: Seq<u32>,
    v0: int,
    vs: int,
    lo: int,
    hi: int,
)
    requires
        forall|t: int|
            lo <= t < hi ==> #[trigger] term(x, x0, xs, y, y0, ys, t) == term(
                u,
                u0,
                us,
                v,
                v0,
                vs,
                t,
            ),
    ensures
        dot(x, x0, xs, y, y0, ys, lo, hi) == dot(u, u0, us, v, v0, vs, lo, hi),
    decreases hi - lo,
{
    if lo < hi {
        lemma_dot_cong(x, x0, xs, y, y0, ys, u, u0, us, v, v0, vs, lo, hi - 1);
        assert(term(x, x0, xs, y, y0, ys, hi - 1) == term(u, u0, us, v, v0, vs, hi - 1));
    }
}

/// `i * w + j` is a cell of an `n`-by-`w` matrix.
pub proof fn lemma_cell(i: int, j: int, n: int, w: int)
    requires
        0 <= i < n,
        0 <= j < w,
    ensures
        0 <= i * w,
        0 <= i * w + j < n * w,
        (i + 1) * w == i * w + w,
        (i + 1) * w <= n * w,
        (i * w + j) / w == i,
        (i * w + j) % w == j,
{
    assert(0 <= i * w) by (nonlinear_arith)
        requires
            0 <= i,
            0 <= w,
    ;
    assert((i + 1) * w == i * w + w) by (nonlinear_arith);
    assert((i + 1) * w <= n * w) by (nonlinear_arith)
        requires
            i + 1 <= n,
            0 <= w,
    ;
    lemma_fundamental_div_mod_converse(i * w + j, w, i, j);
}

/// Cell `(i, j)` of a row-major matrix of width `w`.
pub open spec fn cell(s: Seq<u32>, w: int, i: int, j: int) -> u32 {
    s[i * w + j]
}

/// A row lies within the cells.
pub proof fn lemma_cell_row(i: int, n: int, w: int)
    requires
        0 <= i < n,
        0 <= w,
    ensures
        0 <= i * w,
        i * w + w <= n * w,
{
    assert(0 <= i * w && i * w + w <= n * w) by (nonlinear_arith)
        requires
            0 <= i,
            i + 1 <= n,
            0 <= w,
    ;
}

/// Different cells lie at different places.
pub proof fn lemma_cell_distinct(w: int, i: int, j: int, r: int, c: int)
    requires
        0 <= j < w,
        0 <= c < w,
        0 <= i,
        0 <= r,
    ensures
        i * w + j == r * w + c ==> i == r && j == c,
{
    lemma_fundamental_div_mod_converse(i * w + j, w, i, j);
    lemma_fundamental_div_mod_converse(r * w + c, w, r, c);
}

/// Writing one cell leaves the others as they are.
pub proof fn lemma_cell_update(s: Seq<u32>, n: int, w: int, i: int, j: int, v: u32)
    requires
        0 <= i < n,
        0 <= j < w,
        s.len() == n * w,
    ensures
        0 <= i * w + j < s.len(),
        forall|r: int, c: int|
            0 <= r < n && 0 <= c < w ==> #[trigger] cell(s.update(i * w + j, v), w, r, c) == if r
                == i && c == j {
                v
            } else {
                cell(s, w, r, c)
            },
{
    lemma_cell(i, j, n, w);
    assert forall|r: int, c: int| 0 <= r < n && 0 <= c < w implies #[trigger] cell(
        s.update(i * w + j, v),
        w,
        r,
        c,
    ) == if r == i && c == j {
        v
    } else {
        cell(s, w, r, c)
    } by {
        lemma_cell(r, c, n, w);
        lemma_cell_distinct(w, i, j, r, c);
    }
}

/// Matrices with equal cells are equal.
pub proof fn lemma_cells_equal(a: Seq<u32>, b: Seq<u32>, n: int, w: int)
    requires
        a.len() == n * w,
        b.len() == n * w,
        0 <= n,
        0 <= w,
        forall|r: int, c: int|
            0 <= r < n && 0 <= c < w ==> #[trigger] cell(a, w, r, c) == cell(b, w, r, c),
    ensures
        a == b,
{
    assert forall|x: int| 0 <= x < a.len() implies a[x] == b[x] by {
        if w == 0 {
            assert(n * w == 0) by (nonlinear_arith)
                requires
                    w == 0,
            ;
        }
        let r = x / w;
        let c = x % w;
        lemma_fundamental_div_mod(x, w);
        lemma_mod_bound(x, w);
        lemma_div_pos_is_pos(x, w);
        assert(r * w == w * r) by (nonlinear_arith);
        assert(r < n) by (nonlinear_arith)
            requires
                r * w + c < n * w,
                0 <= c,
                0 < w,
        ;
        assert(cell(a, w, r, c) == cell(b, w, r, c));
    }
    assert(a =~= b);
}

/// The residue of a signed number: its low 32 bits in two's complement.
pub fn residue(d: i64) -> (r: u32)
    ensures
        r == wrap(d as int),
{
    let u: u64 = d as u64;
    proof {
        assert(d >= 0 ==> u == d) by (bit_vector)
            requires
                u == d as u64,
        ;
        assert(d < 0 ==> u == d + 0x1_0000_0000_0000_0000) by (bit_vector)
            requires
                u == d as u64,
        ;
        assert(u as u32 == u % 0x1_0000_0000) by (bit_vector);
        if d < 0 {
            assert(u as int == 0x1_0000_0000 * 0x1_0000_0000 + d);
            lemma_mod_multiples_vanish(0x1_0000_0000, d as int, q());
        }
    }
    u as u32
}

} // verus!
