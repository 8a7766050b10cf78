//! Vector-matrix products modulo `2^32`, blocked over rows.
use vstd::prelude::*;

use crate::arith;

verus! {

/// `acc` with the row vector `q` times the matrix `d` added, taking the first `n` rows.
pub open spec fn matvec(acc: Seq<u32>, d: Seq<u32>, q: Seq<u32>, n: int) -> Seq<u32> {
    Seq::new(
        acc.len(),
        |j: int| arith::wrap(acc[j] + arith::dot(q, 0, 1, d, j, acc.len() as int, 0, n)),
    )
}

/// `b` with the matrix `a` times the column vector `s` added.
pub open spec fn matvec_rows(b: Seq<u32>, a: Seq<u32>, s: Seq<u32>) -> Seq<u32> {
    Seq::new(
        b.len(),
        |i: int| arith::wrap(b[i] + arith::dot(a, i * s.len(), 1, s, 0, 1, 0, s.len() as int)),
    )
}

proof fn lemma_matvec_step(acc: Seq<u32>, d: Seq<u32>, q: Seq<u32>, j: int, n: int, x: u32)
    requires
        0 <= n < q.len(),
        0 <= j < acc.len(),
        x == arith::wrap(acc[j] + arith::dot(q, 0, 1, d, j, acc.len() as int, 0, n)),
    ensures
        arith::wrap(x + q[n] * d[n * acc.len() + j]) == arith::wrap(
            acc[j] + arith::dot(q, 0, 1, d, j, acc.len() as int, 0, n + 1),
        ),
{
    let w = acc.len() as int;
    let t = arith::term(q, 0, 1, d, j, w, n);
    assert(t == q[n] * d[n * w + j]) by {
        assert(j + n * w == n * w + j);
    }
    arith::lemma_wrap_add(acc[j] + arith::dot(q, 0, 1, d, j, w, 0, n), t);
}

/// Adds `q * d` to `acc`: `acc[j] += sum over i of q[i] * d[i][j]`, where `d` is a row-major
/// matrix with one row per coefficient and one column per accumulator.
pub fn matvec_accumulate(acc: &mut [u32], d: &[u32], q: &[u32])
    requires
        d@.len() == q@.len() * old(acc)@.len(),
    ensures
        final(acc)@ == matvec(old(acc)@, d@, q@, q@.len() as int),
{
    matvec_accumulate_seq(acc, d, q);
}

/// Sequential realization; the block size depends on the width alone.
pub fn matvec_accumulate_seq(acc: &mut [u32], d: &[u32], q: &[u32])
    requires
        d@.len() == q@.len() * old(acc)@.len(),
    ensures
        final(acc)@ == matvec(old(acc)@, d@, q@, q@.len() as int),
{
    let width: usize = acc.len();
    if width == 0 {
        assert(acc@ =~= matvec(old(acc)@, d@, q@, q@.len() as int));
    } else if width <= 128 {
        block_pass::<16>(acc, d, q);
    } else if width <= 4096 {
        block_pass::<1>(acc, d, q);
    } else {
        block_pass::<8>(acc, d, q);
    }
}

/// Rows per parallel task: the rows spread over `tasks` tasks, but never fewer than 64.
pub fn par_chunk_rows(rows: usize, tasks: usize) -> (n: usize)
    requires
        tasks > 0,
    ensures
        n == if crate::geometry::ceil_div(rows as int, tasks as int) < 64 {
            64
        } else {
            crate::geometry::ceil_div(rows as int, tasks as int)
        },
{
    let whole: usize = rows / tasks;
    let rest: usize = rows % tasks;
    proof {
        crate::geometry::lemma_ceil_div(rows as int, tasks as int);
    }
    let n: usize = if rest == 0 {
        whole
    } else {
        whole + 1
    };
    if n < 64 {
        64
    } else {
        n
    }
}

/// Partitioned realization: folds chunks of `chunk_rows` rows into partial accumulators and
/// adds these up.
pub fn matvec_accumulate_par(acc: &mut [u32], d: &[u32], q: &[u32], chunk_rows: usize)
    requires
        d@.len() == q@.len() * old(acc)@.len(),
        chunk_rows > 0,
    ensures
        final(acc)@ == matvec(old(acc)@, d@, q@, q@.len() as int),
{
    let width: usize = acc.len();
    let n: usize = q.len();
    let ghost w = width as int;
    let mut i0: usize = 0;
    proof {
        assert(acc@ =~= matvec(old(acc)@, d@, q@, 0)) by {
            assert forall|j: int| 0 <= j < w implies acc@[j] == matvec(old(acc)@, d@, q@, 0)[j] by {
                arith::lemma_wrap_id(acc@[j]);
            }
        }
        assert(d.len() == d@.len());
    }
    while i0 < n
        invariant
            i0 <= n == q@.len(),
            w == width == old(acc)@.len() == acc@.len(),
            d@.len() == n * width <= usize::MAX,
            chunk_rows > 0,
            acc@ == matvec(old(acc)@, d@, q@, i0 as int),
        decreases n - i0,
    {
        let rows: usize = if chunk_rows < n - i0 {
            chunk_rows
        } else {
            n - i0
        };
        let i1: usize = i0 + rows;
        proof {
            assert(i0 * w <= i1 * w && i1 * w <= n * w && i1 * w - i0 * w == rows * w
                && 0 <= i0 * w) by (nonlinear_arith)
                requires
                    0 <= i0 <= i1 <= n,
                    i1 - i0 == rows,
                    w >= 0,
            ;
        }
        let qc: &[u32] = vstd::slice::slice_subrange(q, i0, i1);
        let dc: &[u32] = vstd::slice::slice_subrange(d, i0 * width, i1 * width);
        let mut p: Vec<u32> = vec![0u32; width];
        let ghost zero = p@;
        matvec_accumulate_seq(p.as_mut_slice(), dc, qc);
        let ghost before = acc@;
        crate::matrix::vec_add_assign(acc, p.as_slice());
        proof {
            assert forall|j: int| 0 <= j < w implies acc@[j] == matvec(
                old(acc)@,
                d@,
                q@,
                i1 as int,
            )[j] by {
                let a = old(acc)@[j] as int;
                lemma_dot_shift(q@, d@, i0 as int, rows as int, j, w, qc@, dc@);
                let s1 = arith::dot(q@, 0, 1, d@, j, w, 0, i0 as int);
                let s2 = arith::dot(q@, 0, 1, d@, j, w, i0 as int, i1 as int);
                arith::lemma_dot_split(q@, 0, 1, d@, j, w, 0, i0 as int, i1 as int);
                assert(p@[j] == arith::wrap(s2));
                assert(before[j] == arith::wrap(a + s1));
                arith::lemma_wrap_add(a + s1, arith::wrap(s2) as int);
                arith::lemma_wrap_add(a + s1, s2);
            }
            assert(acc@ =~= matvec(old(acc)@, d@, q@, i1 as int));
        }
        i0 = i1;
    }
}

/// A chunk's own dot product is the matching part of the whole one.
proof fn lemma_dot_shift(
    q: Seq<u32>,
    d: Seq<u32>,
    i0: int,
    rows: int,
    j: int,
    w: int,
    qc: Seq<u32>,
    dc: Seq<u32>,
)
    requires
        0 <= i0,
        0 <= rows,
        i0 + rows <= q.len(),
        0 <= j < w,
        d.len() == q.len() * w,
        qc == q.subrange(i0, i0 + rows),
        dc == d.subrange(i0 * w, (i0 + rows) * w),
    ensures
        arith::dot(qc, 0, 1, dc, j, w, 0, rows) == arith::dot(q, 0, 1, d, j, w, i0, i0 + rows),
    decreases rows,
{
    if rows > 0 {
        let t = rows - 1;
        assert((i0 + rows) * w <= q.len() * w) by (nonlinear_arith)
            requires
                i0 + rows <= q.len(),
                w > 0,
        ;
        arith::lemma_cell(i0 + t, j, q.len() as int, w);
        arith::lemma_cell(t, j, rows, w);
        assert((i0 + t) * w == i0 * w + t * w) by (nonlinear_arith);
        assert((i0 + rows) * w == i0 * w + rows * w) by (nonlinear_arith);
        assert(0 <= i0 * w) by (nonlinear_arith)
            requires
                0 <= i0,
                0 < w,
        ;
        assert(qc[t] == q[i0 + t]);
        assert(dc[t * w + j] == d[(i0 + t) * w + j]);
        let qd = q.subrange(i0, i0 + t);
        let dd = d.subrange(i0 * w, (i0 + t) * w);
        lemma_dot_shift(q, d, i0, t, j, w, qd, dd);
        assert forall|k: int| 0 <= k < t implies #[trigger] arith::term(qc, 0, 1, dc, j, w, k)
            == arith::term(qd, 0, 1, dd, j, w, k) by {
            arith::lemma_cell(k, j, t, w);
            arith::lemma_cell(k, j, rows, w);
            assert(qc[k] == qd[k]);
            assert(dc[j + k * w] == dd[j + k * w]);
        }
        arith::lemma_dot_cong(qc, 0, 1, dc, j, w, qd, 0, 1, dd, j, w, 0, t);
    }
}

/// One blocking level: folds `R` rows per pass over `acc`, then the remaining rows one at a
/// time.
pub fn block_pass<const R: usize>(acc: &mut [u32], d: &[u32], q: &[u32])
    requires
        R > 0,
        d@.len() == q@.len() * old(acc)@.len(),
    ensures
        final(acc)@ == matvec(old(acc)@, d@, q@, q@.len() as int),
{
    let width: usize = acc.len();
    let n: usize = q.len();
    let ghost w = width as int;
    let ghost a0 = acc@;
    proof {
        assert(acc@ =~= matvec(a0, d@, q@, 0)) by {
            assert forall|j: int| 0 <= j < w implies acc@[j] == matvec(a0, d@, q@, 0)[j] by {
                arith::lemma_wrap_id(acc@[j]);
            }
        }
        assert(d.len() == d@.len());
    }
    proof {
        vstd::arithmetic::div_mod::lemma_mod_decreases(n as nat, R as nat);
    }
    let full: usize = n - n % R;
    let mut i0: usize = 0;
    proof {
        vstd::arithmetic::div_mod::lemma_fundamental_div_mod(n as int, R as int);
        vstd::arithmetic::mul::lemma_mul_is_commutative(R as int, n as int / R as int);
    }
    let ghost mut blocks: int = 0;
    while i0 < full
        invariant
            R > 0,
            n == q@.len(),
            full <= n,
            full == (n as int / R as int) * R,
            i0 == blocks * R,
            0 <= i0 <= full,
            w == width == a0.len() == acc@.len(),
            a0 == old(acc)@,
            d@.len() == n * width <= usize::MAX,
            acc@ == matvec(a0, d@, q@, i0 as int),
        decreases full - i0,
    {
        proof {
            assert(i0 + R <= full) by (nonlinear_arith)
                requires
                    i0 == blocks * R,
                    full == (n as int / R as int) * R,
                    i0 < full,
                    R > 0,
            ;
            assert((blocks + 1) * R == blocks * R + R) by (nonlinear_arith);
        }
        let mut j: usize = 0;
        while j < width
            invariant
                R > 0,
                n == q@.len(),
                i0 + R <= full <= n,
                j <= width,
                w == width == a0.len() == acc@.len(),
                a0 == old(acc)@,
                d@.len() == n * width <= usize::MAX,
                forall|c: int|
                    0 <= c < w ==> #[trigger] acc@[c] == matvec(
                        a0,
                        d@,
                        q@,
                        if c < j {
                            i0 + R
                        } else {
                            i0 as int
                        },
                    )[c],
            decreases width - j,
        {
            let mut x: u32 = acc[j];
            let mut r: usize = 0;
            while r < R
                invariant
                    r <= R,
                    n == q@.len(),
                    i0 + R <= n,
                    j < width,
                    w == width == a0.len(),
                    d@.len() == n * width <= usize::MAX,
                    x == matvec(a0, d@, q@, i0 + r)[j as int],
                decreases R - r,
            {
                proof {
                    arith::lemma_cell(i0 + r, j as int, n as int, w);
                    lemma_matvec_step(a0, d@, q@, j as int, i0 + r, x);
                }
                x = arith::mac(x, q[i0 + r], d[(i0 + r) * width + j]);
                r = r + 1;
            }
            acc[j] = x;
            j = j + 1;
        }
        i0 = i0 + R;
        proof {
            blocks = blocks + 1;
            assert(acc@ =~= matvec(a0, d@, q@, i0 as int));
        }
    }
    while i0 < n
        invariant
            i0 <= n == q@.len(),
            w == width == a0.len() == acc@.len(),
            a0 == old(acc)@,
            d@.len() == n * width <= usize::MAX,
            acc@ == matvec(a0, d@, q@, i0 as int),
        decreases n - i0,
    {
        let qi: u32 = q[i0];
        let mut j: usize = 0;
        while j < width
            invariant
                i0 < n == q@.len(),
                qi == q@[i0 as int],
                j <= width,
                w == width == a0.len() == acc@.len(),
                a0 == old(acc)@,
                d@.len() == n * width <= usize::MAX,
                forall|c: int|
                    0 <= c < w ==> #[trigger] acc@[c] == matvec(
                        a0,
                        d@,
                        q@,
                        if c < j {
                            i0 + 1
                        } else {
                            i0 as int
                        },
                    )[c],
            decreases width - j,
        {
            proof {
                arith::lemma_cell(i0 as int, j as int, n as int, w);
                lemma_matvec_step(a0, d@, q@, j as int, i0 as int, acc@[j as int]);
            }
            acc[j] = arith::mac(acc[j], qi, d[i0 * width + j]);
            j = j + 1;
        }
        i0 = i0 + 1;
        proof {
            assert(acc@ =~= matvec(a0, d@, q@, i0 as int));
        }
    }
}

/// Adds `a * s` to `b`: `b[i] += sum over k of a[i][k] * s[k]`, where `a` is a row-major
/// matrix with one row per accumulator and one column per coefficient.
pub fn matvec_rows_accumulate(b: &mut [u32], a: &[u32], s: &[u32])
    requires
        a@.len() == old(b)@.len() * s@.len(),
    ensures
        final(b)@ == matvec_rows(old(b)@, a@, s@),
{
    matvec_rows_seq(b, a, s);
}

/// Sequential realization; the block size depends on the size of `a` alone.
pub fn matvec_rows_seq(b: &mut [u32], a: &[u32], s: &[u32])
    requires
        a@.len() == old(b)@.len() * s@.len(),
    ensures
        final(b)@ == matvec_rows(old(b)@, a@, s@),
{
    if a.len() <= 2_097_152 {
        rows_pass::<8>(b, a, s);
    } else {
        rows_pass::<2>(b, a, s);
    }
}

/// One blocking level: `R` interleaved dot products per pass, then the remaining rows one
/// at a time.
pub fn rows_pass<const R: usize>(b: &mut [u32], a: &[u32], s: &[u32])
    requires
        R > 0,
        a@.len() == old(b)@.len() * s@.len(),
    ensures
        final(b)@ == matvec_rows(old(b)@, a@, s@),
{
    let n: usize = s.len();
    let m: usize = b.len();
    let ghost b0 = b@;
    let ghost target = matvec_rows(b0, a@, s@);
    proof {
        assert(a.len() == a@.len());
        vstd::arithmetic::div_mod::lemma_mod_decreases(m as nat, R as nat);
        vstd::arithmetic::div_mod::lemma_fundamental_div_mod(m as int, R as int);
        vstd::arithmetic::mul::lemma_mul_is_commutative(R as int, m as int / R as int);
    }
    let full: usize = m - m % R;
    let mut i0: usize = 0;
    let ghost mut blocks: int = 0;
    while i0 < full
        invariant
            R > 0,
            n == s@.len(),
            full <= m,
            full == (m as int / R as int) * R,
            i0 == blocks * R,
            0 <= i0 <= full,
            m == b0.len() == b@.len(),
            b0 == old(b)@,
            target == matvec_rows(b0, a@, s@),
            a@.len() == m * n <= usize::MAX,
            forall|i: int|
                0 <= i < m ==> #[trigger] b@[i] == if i < i0 {
                    target[i]
                } else {
                    b0[i]
                },
        decreases full - i0,
    {
        proof {
            assert(i0 + R <= full) by (nonlinear_arith)
                requires
                    i0 == blocks * R,
                    full == (m as int / R as int) * R,
                    i0 < full,
                    R > 0,
            ;
            assert((blocks + 1) * R == blocks * R + R) by (nonlinear_arith);
        }
        let mut acc: Vec<u32> = vec![0u32; R];
        let mut k: usize = 0;
        while k < n
            invariant
                R > 0,
                k <= n == s@.len(),
                i0 + R <= m,
                a@.len() == m * n <= usize::MAX,
                acc@.len() == R,
                forall|r: int|
                    0 <= r < R ==> #[trigger] acc@[r] == arith::wrap(
                        arith::dot(a@, (i0 + r) * n, 1, s@, 0, 1, 0, k as int),
                    ),
            decreases n - k,
        {
            let sk: u32 = s[k];
            let mut r: usize = 0;
            while r < R
                invariant
                    r <= R,
                    k < n == s@.len(),
                    sk == s@[k as int],
                    i0 + R <= m,
                    a@.len() == m * n <= usize::MAX,
                    acc@.len() == R,
                    forall|t: int|
                        0 <= t < R ==> #[trigger] acc@[t] == arith::wrap(
                            arith::dot(
                                a@,
                                (i0 + t) * n,
                                1,
                                s@,
                                0,
                                1,
                                0,
                                if t < r {
                                    k + 1
                                } else {
                                    k as int
                                },
                            ),
                        ),
                decreases R - r,
            {
                proof {
                    arith::lemma_cell(i0 + r, k as int, m as int, n as int);
                    arith::lemma_wrap_add(
                        arith::dot(a@, (i0 + r) * n, 1, s@, 0, 1, 0, k as int),
                        arith::term(a@, (i0 + r) * n, 1, s@, 0, 1, k as int),
                    );
                }
                let x: u32 = acc[r];
                acc.set(r, arith::mac(x, a[(i0 + r) * n + k], sk));
                r = r + 1;
            }
            k = k + 1;
        }
        let mut r: usize = 0;
        while r < R
            invariant
                r <= R,
                n == s@.len(),
                i0 + R <= m == b0.len() == b@.len(),
                b0 == old(b)@,
                target == matvec_rows(b0, a@, s@),
                acc@.len() == R,
                forall|t: int|
                    0 <= t < R ==> #[trigger] acc@[t] == arith::wrap(
                        arith::dot(a@, (i0 + t) * n, 1, s@, 0, 1, 0, n as int),
                    ),
                forall|i: int|
                    0 <= i < m ==> #[trigger] b@[i] == if i < i0 + r {
                        target[i]
                    } else {
                        b0[i]
                    },
            decreases R - r,
        {
            proof {
                arith::lemma_wrap_add(
                    b0[i0 + r] as int,
                    arith::dot(a@, (i0 + r) * n, 1, s@, 0, 1, 0, n as int),
                );
            }
            b[i0 + r] = arith::add_mod(b[i0 + r], acc[r]);
            r = r + 1;
        }
        i0 = i0 + R;
        proof {
            blocks = blocks + 1;
        }
    }
    while i0 < m
        invariant
            i0 <= m == b0.len() == b@.len(),
            n == s@.len(),
            b0 == old(b)@,
            target == matvec_rows(b0, a@, s@),
            a@.len() == m * n <= usize::MAX,
            forall|i: int|
                0 <= i < m ==> #[trigger] b@[i] == if i < i0 {
                    target[i]
                } else {
                    b0[i]
                },
        decreases m - i0,
    {
        let mut acc: u32 = b[i0];
        let mut k: usize = 0;
        proof {
            arith::lemma_wrap_id(acc);
        }
        while k < n
            invariant
                i0 < m,
                k <= n == s@.len(),
                a@.len() == m * n <= usize::MAX,
                acc == arith::wrap(
                    b0[i0 as int] + arith::dot(a@, i0 * n, 1, s@, 0, 1, 0, k as int),
                ),
            decreases n - k,
        {
            proof {
                arith::lemma_cell(i0 as int, k as int, m as int, n as int);
                arith::lemma_wrap_add(
                    b0[i0 as int] + arith::dot(a@, i0 * n, 1, s@, 0, 1, 0, k as int),
                    arith::term(a@, i0 * n, 1, s@, 0, 1, k as int),
                );
            }
            acc = arith::mac(acc, a[i0 * n + k], s[k]);
            k = k + 1;
        }
        b[i0] = acc;
        i0 = i0 + 1;
    }
    assert(b@ =~= target);
}

} // verus!
