//! Tiled product of a transposed matrix and a matrix, modulo `2^32`.
use vstd::prelude::*;

use crate::arith;
use crate::geometry;

verus! {

/// Rows of a register tile.
pub const MR: usize = 4;

/// Columns of a register tile.
pub const NR: usize = 16;

/// Rows of `a` and `d` that are packed and consumed in one pass.
pub const KC: usize = 256;

/// `h[k][j]` with the terms `a[i][k] * d[i][j]` over `lo <= i < hi` added.
pub open spec fn gemm_cell(
    h: Seq<u32>,
    a: Seq<u32>,
    d: Seq<u32>,
    lwe_dim: int,
    width: int,
    k: int,
    j: int,
    lo: int,
    hi: int,
) -> u32 {
    arith::wrap(
        arith::cell(h, width, k, j) + arith::dot(a, k, lwe_dim, d, j, width, lo, hi),
    )
}

/// `out` is `h` with the transpose of `a` times `d` added.
pub open spec fn is_gemm(
    out: Seq<u32>,
    h: Seq<u32>,
    a: Seq<u32>,
    d: Seq<u32>,
    lwe_dim: int,
    width: int,
    n_rows: int,
) -> bool {
    &&& out.len() == h.len()
    &&& forall|k: int, j: int|
        0 <= k < lwe_dim && 0 <= j < width ==> #[trigger] arith::cell(out, width, k, j)
            == gemm_cell(h, a, d, lwe_dim, width, k, j, 0, n_rows)
}

/// Cell `(i, m)` of the packed tile that starts at column `k0`: zero past the last column.
pub open spec fn tile_cell(a: Seq<u32>, lwe_dim: int, i0: int, k0: int, i: int, m: int) -> u32 {
    if k0 + m < lwe_dim {
        arith::cell(a, lwe_dim, i0 + i, k0 + m)
    } else {
        0
    }
}

/// `tile` holds the columns `k0..k0 + MR` of the rows `i0..i0 + kc` of `a`.
pub open spec fn is_tile(
    tile: Seq<u32>,
    a: Seq<u32>,
    lwe_dim: int,
    i0: int,
    kc: int,
    k0: int,
) -> bool {
    &&& tile.len() == kc * 4
    &&& forall|i: int, m: int|
        0 <= i < kc && 0 <= m < 4 ==> #[trigger] arith::cell(tile, 4, i, m) == tile_cell(
            a,
            lwe_dim,
            i0,
            k0,
            i,
            m,
        )
}

/// Packs one tile of `a`, padded with zeros past the last column.
fn pack_tile(a: &[u32], lwe_dim: usize, n_rows: usize, i0: usize, kc: usize, k0: usize) -> (tile:
    Vec<u32>)
    requires
        a@.len() == n_rows * lwe_dim,
        i0 + kc <= n_rows,
        kc <= 256,
        k0 < lwe_dim,
    ensures
        is_tile(tile@, a@, lwe_dim as int, i0 as int, kc as int, k0 as int),
{
    let mut tile: Vec<u32> = Vec::with_capacity(kc * 4);
    let mut i: usize = 0;
    assert(a.len() == a@.len());
    while i < kc
        invariant
            i <= kc <= 256,
            a@.len() == n_rows * lwe_dim <= usize::MAX,
            i0 + kc <= n_rows,
            k0 < lwe_dim,
                tile@.len() == i * 4,
            forall|r: int, m: int|
                0 <= r < i && 0 <= m < 4 ==> #[trigger] arith::cell(tile@, 4, r, m) == tile_cell(
                    a@,
                    lwe_dim as int,
                    i0 as int,
                    k0 as int,
                    r,
                    m,
                ),
        decreases kc - i,
    {
        let mut m: usize = 0;
        while m < 4
            invariant
                m <= 4,
                i < kc <= 256,
                a@.len() == n_rows * lwe_dim <= usize::MAX,
                i0 + kc <= n_rows,
                k0 < lwe_dim,
                        tile@.len() == i * 4 + m,
                forall|r: int, c: int|
                    0 <= c < 4 && (0 <= r < i || (r == i && c < m)) ==> #[trigger] arith::cell(
                        tile@,
                        4,
                        r,
                        c,
                    ) == tile_cell(a@, lwe_dim as int, i0 as int, k0 as int, r, c),
            decreases 4 - m,
        {
            let v: u32 = if m < lwe_dim - k0 {
                proof {
                    arith::lemma_cell(i0 + i, k0 + m, n_rows as int, lwe_dim as int);
                }
                a[(i0 + i) * lwe_dim + (k0 + m)]
            } else {
                0
            };
            let ghost before = tile@;
            tile.push(v);
            proof {
                assert forall|r: int, c: int|
                    0 <= c < 4 && (0 <= r < i || (r == i && c < m + 1)) implies #[trigger] arith::cell(
                    tile@,
                    4,
                    r,
                    c,
                ) == tile_cell(a@, lwe_dim as int, i0 as int, k0 as int, r, c) by {
                    if r < i || c < m {
                        assert(arith::cell(before, 4, r, c) == tile_cell(
                            a@,
                            lwe_dim as int,
                            i0 as int,
                            k0 as int,
                            r,
                            c,
                        ));
                        assert(r * 4 + c < before.len());
                    }
                }
            }
            m = m + 1;
        }
        i = i + 1;
    }
    tile
}

/// Folds one register tile of `MR` rows and `jw` columns over `kc` rows and adds it to the
/// `mr` live rows of `h`.
fn micro_tile(
    h: &mut [u32],
    tile: &[u32],
    d: &[u32],
    i0: usize,
    kc: usize,
    j0: usize,
    jw: usize,
    width: usize,
    k0: usize,
    mr: usize,
    lwe_dim: Ghost<int>,
    n_rows: Ghost<int>,
    a: Ghost<Seq<u32>>,
)
    requires
        old(h)@.len() == lwe_dim@ * width,
        d@.len() == n_rows@ * width,
        i0 + kc <= n_rows@,
        kc <= 256,
        j0 + jw <= width,
        jw <= 16,
        mr <= 4,
        k0 + mr <= lwe_dim@,
        is_tile(tile@, a@, lwe_dim@, i0 as int, kc as int, k0 as int),
    ensures
        final(h)@.len() == old(h)@.len(),
        forall|k: int, j: int|
            0 <= k < lwe_dim@ && 0 <= j < width ==> #[trigger] arith::cell(
                final(h)@,
                width as int,
                k,
                j,
            ) == if k0 <= k < k0 + mr && j0 <= j < j0 + jw {
                gemm_cell(
                    old(h)@,
                    a@,
                    d@,
                    lwe_dim@,
                    width as int,
                    k,
                    j,
                    i0 as int,
                    i0 + kc,
                )
            } else {
                arith::cell(old(h)@, width as int, k, j)
            },
{
    let mut acc: [u32; 64] = [0u32; 64];
    let ghost l = lwe_dim@;
    let ghost w = width as int;
    let mut i: usize = 0;
    assert(d.len() == d@.len());
    while i < kc
        invariant
            i <= kc <= 256,
            w == width,
            l == lwe_dim@,
            d@.len() == n_rows@ * width <= usize::MAX,
            i0 + kc <= n_rows@,
            j0 + jw <= width,
            jw <= 16,
            mr <= 4,
            k0 + mr <= l,
            is_tile(tile@, a@, l, i0 as int, kc as int, k0 as int),
            forall|m: int, n: int|
                0 <= m < mr && 0 <= n < jw ==> #[trigger] arith::cell(acc@, 16, m, n)
                    == arith::wrap(
                    arith::dot(a@, k0 + m, l, d@, j0 + n, w, i0 as int, i0 + i),
                ),
        decreases kc - i,
    {
        let mut m: usize = 0;
        while m < 4
            invariant
                m <= 4,
                i < kc <= 256,
                w == width,
                l == lwe_dim@,
                d@.len() == n_rows@ * width <= usize::MAX,
                i0 + kc <= n_rows@,
                j0 + jw <= width,
                jw <= 16,
                mr <= 4,
                k0 + mr <= l,
                is_tile(tile@, a@, l, i0 as int, kc as int, k0 as int),
                forall|x: int, y: int|
                    0 <= x < mr && 0 <= y < jw ==> #[trigger] arith::cell(acc@, 16, x, y)
                        == arith::wrap(
                        arith::dot(
                            a@,
                            k0 + x,
                            l,
                            d@,
                            j0 + y,
                            w,
                            i0 as int,
                            if x < m {
                                i0 + i + 1
                            } else {
                                i0 + i
                            },
                        ),
                    ),
            decreases 4 - m,
        {
            let am: u32 = tile[i * 4 + m];
            proof {
                assert(arith::cell(tile@, 4, i as int, m as int) == am);
            }
            let mut n: usize = 0;
            while n < jw
                invariant
                    n <= jw <= 16,
                    m < 4,
                    i < kc,
                    w == width,
                    l == lwe_dim@,
                    d@.len() == n_rows@ * width <= usize::MAX,
                    i0 + kc <= n_rows@,
                    j0 + jw <= width,
                    mr <= 4,
                    k0 + mr <= l,
                    m < mr ==> am == arith::cell(a@, l, i0 + i, k0 + m),
                    forall|x: int, y: int|
                        0 <= x < mr && 0 <= y < jw ==> #[trigger] arith::cell(acc@, 16, x, y)
                            == arith::wrap(
                            arith::dot(
                                a@,
                                k0 + x,
                                l,
                                d@,
                                j0 + y,
                                w,
                                i0 as int,
                                if x < m || (x == m && y < n) {
                                    i0 + i + 1
                                } else {
                                    i0 + i
                                },
                            ),
                        ),
                decreases jw - n,
            {
                proof {
                    arith::lemma_cell(i0 + i, j0 + n, n_rows@, w);
                }
                let dn: u32 = d[(i0 + i) * width + (j0 + n)];
                let ghost before = acc@;
                let v: u32 = arith::mac(acc[m * 16 + n], am, dn);
                acc[m * 16 + n] = v;
                proof {
                    arith::lemma_cell_update(before, 4, 16, m as int, n as int, v);
                    if m < mr {
                        let s = arith::dot(
                            a@,
                            k0 + m,
                            l,
                            d@,
                            j0 + n,
                            w,
                            i0 as int,
                            i0 + i,
                        );
                        let t = arith::term(a@, k0 + m, l, d@, j0 + n, w, i0 + i);
                        assert(t == am * dn) by {
                            assert((k0 + m) + (i0 + i) * l == (i0 + i) * l + (k0 + m));
                            assert((j0 + n) + (i0 + i) * w == (i0 + i) * w + (j0 + n));
                        }
                        assert(arith::cell(before, 16, m as int, n as int) == arith::wrap(s));
                        arith::lemma_wrap_add(s, t);
                    }
                }
                n = n + 1;
            }
            m = m + 1;
        }
        i = i + 1;
    }
    let mut m: usize = 0;
    let ghost h0 = h@;
    assert(h.len() == h@.len());
    while m < mr
        invariant
            m <= mr <= 4,
            w == width,
            l == lwe_dim@,
            h0 == old(h)@,
            h@.len() == h0.len() == l * width <= usize::MAX,
            j0 + jw <= width,
            jw <= 16,
            k0 + mr <= l,
            forall|x: int, y: int|
                0 <= x < mr && 0 <= y < jw ==> #[trigger] arith::cell(acc@, 16, x, y)
                    == arith::wrap(arith::dot(a@, k0 + x, l, d@, j0 + y, w, i0 as int, i0 + kc)),
            forall|k: int, j: int|
                0 <= k < l && 0 <= j < w ==> #[trigger] arith::cell(h@, w, k, j) == if k0 <= k < k0
                    + m && j0 <= j < j0 + jw {
                    gemm_cell(h0, a@, d@, l, w, k, j, i0 as int, i0 + kc)
                } else {
                    arith::cell(h0, w, k, j)
                },
        decreases mr - m,
    {
        let mut n: usize = 0;
        while n < jw
            invariant
                n <= jw <= 16,
                m < mr <= 4,
                w == width,
                l == lwe_dim@,
                h0 == old(h)@,
                h@.len() == h0.len() == l * width <= usize::MAX,
                j0 + jw <= width,
                k0 + mr <= l,
                forall|x: int, y: int|
                    0 <= x < mr && 0 <= y < jw ==> #[trigger] arith::cell(acc@, 16, x, y)
                        == arith::wrap(
                        arith::dot(a@, k0 + x, l, d@, j0 + y, w, i0 as int, i0 + kc),
                    ),
                forall|k: int, j: int|
                    0 <= k < l && 0 <= j < w ==> #[trigger] arith::cell(h@, w, k, j) == if (k0 <= k
                        < k0 + m && j0 <= j < j0 + jw) || (k == k0 + m && j0 <= j < j0 + n) {
                        gemm_cell(h0, a@, d@, l, w, k, j, i0 as int, i0 + kc)
                    } else {
                        arith::cell(h0, w, k, j)
                    },
            decreases jw - n,
        {
            proof {
                arith::lemma_cell(k0 + m, j0 + n, l, w);
            }
            let at: usize = (k0 + m) * width + (j0 + n);
            let ghost before = h@;
            let v: u32 = arith::add_mod(h[at], acc[m * 16 + n]);
            h[at] = v;
            proof {
                arith::lemma_cell_update(before, l, w, k0 + m, j0 + n, v);
                assert(arith::cell(before, w, k0 + m, j0 + n) == arith::cell(
                    h0,
                    w,
                    k0 + m,
                    j0 + n,
                ));
                let s = arith::dot(a@, k0 + m, l, d@, j0 + n, w, i0 as int, i0 + kc);
                assert(arith::cell(acc@, 16, m as int, n as int) == arith::wrap(s));
                arith::lemma_wrap_add(arith::cell(h0, w, k0 + m, j0 + n) as int, s);
            }
            n = n + 1;
        }
        m = m + 1;
    }
}

/// Full-width micro-kernel: `NR` columns.
fn micro_full(
    h: &mut [u32],
    tile: &[u32],
    d: &[u32],
    i0: usize,
    kc: usize,
    j0: usize,
    width: usize,
    k0: usize,
    mr: usize,
    lwe_dim: Ghost<int>,
    n_rows: Ghost<int>,
    a: Ghost<Seq<u32>>,
)
    requires
        old(h)@.len() == lwe_dim@ * width,
        d@.len() == n_rows@ * width,
        i0 + kc <= n_rows@,
        kc <= 256,
        j0 + 16 <= width,
        mr <= 4,
        k0 + mr <= lwe_dim@,
        is_tile(tile@, a@, lwe_dim@, i0 as int, kc as int, k0 as int),
    ensures
        final(h)@.len() == old(h)@.len(),
        forall|k: int, j: int|
            0 <= k < lwe_dim@ && 0 <= j < width ==> #[trigger] arith::cell(
                final(h)@,
                width as int,
                k,
                j,
            ) == if k0 <= k < k0 + mr && j0 <= j < j0 + 16 {
                gemm_cell(
                    old(h)@,
                    a@,
                    d@,
                    lwe_dim@,
                    width as int,
                    k,
                    j,
                    i0 as int,
                    i0 + kc,
                )
            } else {
                arith::cell(old(h)@, width as int, k, j)
            },
{
    micro_tile(h, tile, d, i0, kc, j0, NR, width, k0, mr, lwe_dim, n_rows, a);
}

/// Micro-kernel for the last, narrower columns.
fn micro_tail(
    h: &mut [u32],
    tile: &[u32],
    d: &[u32],
    i0: usize,
    kc: usize,
    j0: usize,
    width: usize,
    k0: usize,
    mr: usize,
    lwe_dim: Ghost<int>,
    n_rows: Ghost<int>,
    a: Ghost<Seq<u32>>,
)
    requires
        old(h)@.len() == lwe_dim@ * width,
        d@.len() == n_rows@ * width,
        i0 + kc <= n_rows@,
        kc <= 256,
        j0 <= width < j0 + 16,
        mr <= 4,
        k0 + mr <= lwe_dim@,
        is_tile(tile@, a@, lwe_dim@, i0 as int, kc as int, k0 as int),
    ensures
        final(h)@.len() == old(h)@.len(),
        forall|k: int, j: int|
            0 <= k < lwe_dim@ && 0 <= j < width ==> #[trigger] arith::cell(
                final(h)@,
                width as int,
                k,
                j,
            ) == if k0 <= k < k0 + mr && j0 <= j {
                gemm_cell(
                    old(h)@,
                    a@,
                    d@,
                    lwe_dim@,
                    width as int,
                    k,
                    j,
                    i0 as int,
                    i0 + kc,
                )
            } else {
                arith::cell(old(h)@, width as int, k, j)
            },
{
    micro_tile(h, tile, d, i0, kc, j0, width - j0, width, k0, mr, lwe_dim, n_rows, a);
}

/// How far cell `(k, j)` is summed up when the columns below `j0`, and of the columns
/// `j0..j1` the rows below `k1`, are done with the block `i0..i1`.
spec fn upto(k: int, j: int, j0: int, j1: int, k1: int, i0: int, i1: int) -> int {
    if j < j0 || (j < j1 && k < k1) {
        i1
    } else {
        i0
    }
}

/// Each cell of `h` holds the terms summed up so far.
spec fn partial_gemm(
    h: Seq<u32>,
    h0: Seq<u32>,
    a: Seq<u32>,
    d: Seq<u32>,
    lwe_dim: int,
    width: int,
    j0: int,
    j1: int,
    k1: int,
    i0: int,
    i1: int,
) -> bool {
    &&& h.len() == h0.len() == lwe_dim * width
    &&& forall|k: int, j: int|
        0 <= k < lwe_dim && 0 <= j < width ==> #[trigger] arith::cell(h, width, k, j) == gemm_cell(
            h0,
            a,
            d,
            lwe_dim,
            width,
            k,
            j,
            0,
            upto(k, j, j0, j1, k1, i0, i1),
        )
}

/// The tiles of the block `i0..i0 + kc`.
spec fn are_tiles(
    tiles: Seq<Vec<u32>>,
    a: Seq<u32>,
    lwe_dim: int,
    i0: int,
    kc: int,
    count: int,
) -> bool {
    &&& tiles.len() == count
    &&& forall|t: int|
        0 <= t < count ==> is_tile((#[trigger] tiles[t])@, a, lwe_dim, i0, kc, 4 * t)
}

/// Adds the columns `j0..j1` of the block's product to `h`.
fn gemm_columns(
    h: &mut [u32],
    tiles: &Vec<Vec<u32>>,
    a: &[u32],
    d: &[u32],
    i0: usize,
    kc: usize,
    j0: usize,
    j1: usize,
    lwe_dim: usize,
    width: usize,
    n_rows: usize,
    h0: Ghost<Seq<u32>>,
)
    requires
        lwe_dim > 0,
        a@.len() == n_rows * lwe_dim,
        d@.len() == n_rows * width,
        i0 + kc <= n_rows,
        kc <= 256,
        j0 < j1 <= width,
        j1 == j0 + 16 || (j1 == width && width < j0 + 16),
        are_tiles(
            tiles@,
            a@,
            lwe_dim as int,
            i0 as int,
            kc as int,
            geometry::ceil_div(lwe_dim as int, 4),
        ),
        partial_gemm(
            old(h)@,
            h0@,
            a@,
            d@,
            lwe_dim as int,
            width as int,
            j0 as int,
            j0 as int,
            0,
            i0 as int,
            i0 + kc,
        ),
    ensures
        partial_gemm(
            final(h)@,
            h0@,
            a@,
            d@,
            lwe_dim as int,
            width as int,
            j1 as int,
            j1 as int,
            0,
            i0 as int,
            i0 + kc,
        ),
{
    let ghost l = lwe_dim as int;
    let ghost w = width as int;
    let mut kt: usize = 0;
    let mut k0: usize = 0;
    while kt < tiles.len()
        invariant
            lwe_dim > 0,
            l == lwe_dim,
            w == width,
            a@.len() == n_rows * lwe_dim,
            d@.len() == n_rows * width,
            i0 + kc <= n_rows,
            kc <= 256,
            j0 < j1 <= width,
            j1 == j0 + 16 || (j1 == width && width < j0 + 16),
            are_tiles(tiles@, a@, l, i0 as int, kc as int, geometry::ceil_div(l, 4)),
            kt <= tiles@.len(),
            k0 == 4 * kt || (kt == tiles@.len() && k0 == lwe_dim),
            kt < tiles@.len() ==> k0 < lwe_dim,
            kt == tiles@.len() ==> k0 == lwe_dim,
            k0 <= lwe_dim,
            partial_gemm(
                h@,
                h0@,
                a@,
                d@,
                l,
                w,
                j0 as int,
                j1 as int,
                k0 as int,
                i0 as int,
                i0 + kc,
            ),
        decreases tiles@.len() - kt,
    {
        let mr: usize = if MR < lwe_dim - k0 {
            MR
        } else {
            lwe_dim - k0
        };
        let ghost before = h@;
        let tile: &Vec<u32> = &tiles[kt];
        if j1 - j0 == NR {
            micro_full(
                h,
                tile.as_slice(),
                d,
                i0,
                kc,
                j0,
                width,
                k0,
                mr,
                Ghost(l),
                Ghost(n_rows as int),
                Ghost(a@),
            );
        } else {
            micro_tail(
                h,
                tile.as_slice(),
                d,
                i0,
                kc,
                j0,
                width,
                k0,
                mr,
                Ghost(l),
                Ghost(n_rows as int),
                Ghost(a@),
            );
        }
        proof {
            assert forall|k: int, j: int| 0 <= k < l && 0 <= j < w implies #[trigger] arith::cell(
                h@,
                w,
                k,
                j,
            ) == gemm_cell(
                h0@,
                a@,
                d@,
                l,
                w,
                k,
                j,
                0,
                upto(k, j, j0 as int, j1 as int, k0 + mr, i0 as int, i0 + kc),
            ) by {
                let e = i0 as int;
                assert(arith::cell(before, w, k, j) == gemm_cell(
                    h0@,
                    a@,
                    d@,
                    l,
                    w,
                    k,
                    j,
                    0,
                    upto(k, j, j0 as int, j1 as int, k0 as int, e, e + kc),
                ));
                if k0 <= k < k0 + mr && j0 <= j < j1 {
                    let x = arith::cell(h0@, w, k, j) as int;
                    let s1 = arith::dot(a@, k, l, d@, j, w, 0, e);
                    let s2 = arith::dot(a@, k, l, d@, j, w, e, e + kc);
                    arith::lemma_dot_split(a@, k, l, d@, j, w, 0, e, e + kc);
                    arith::lemma_wrap_add(x + s1, s2);
                }
            }
        }
        kt = kt + 1;
        k0 = k0 + mr;
    }
}

/// Adds the transpose of `a` times `d` to `h`: `h[k][j] += sum over i of a[i][k] * d[i][j]`.
///
/// `h` is `lwe_dim` by `width`, `a` has rows of `lwe_dim` cells, and `d` as many rows of
/// `width` cells; all are row-major.
pub fn gemm_at_d_accumulate(h: &mut [u32], a: &[u32], d: &[u32], lwe_dim: usize, width: usize)
    requires
        lwe_dim > 0 ==> a@.len() % (lwe_dim as nat) == 0,
        lwe_dim > 0 ==> d@.len() == (a@.len() / (lwe_dim as nat)) * width,
        old(h)@.len() == lwe_dim * width,
    ensures
        lwe_dim == 0 ==> final(h)@ == old(h)@,
        lwe_dim > 0 ==> is_gemm(
            final(h)@,
            old(h)@,
            a@,
            d@,
            lwe_dim as int,
            width as int,
            a@.len() as int / lwe_dim as int,
        ),
{
    if lwe_dim == 0 || width == 0 {
        return;
    }
    let n_rows: usize = a.len() / lwe_dim;
    let ghost l = lwe_dim as int;
    let ghost w = width as int;
    let ghost h0 = h@;
    proof {
        vstd::arithmetic::div_mod::lemma_fundamental_div_mod(a@.len() as int, l);
        vstd::arithmetic::mul::lemma_mul_is_commutative(l, n_rows as int);
        geometry::lemma_ceil_div(l, 4);
        assert forall|k: int, j: int| 0 <= k < l && 0 <= j < w implies #[trigger] arith::cell(
            h@,
            w,
            k,
            j,
        ) == gemm_cell(h0, a@, d@, l, w, k, j, 0, 0) by {
            arith::lemma_wrap_id(arith::cell(h@, w, k, j));
        }
    }
    let k_tiles: usize = if lwe_dim % MR == 0 {
        lwe_dim / MR
    } else {
        lwe_dim / MR + 1
    };
    let mut i0: usize = 0;
    while i0 < n_rows
        invariant
            lwe_dim > 0,
            l == lwe_dim,
            w == width,
            width > 0,
            a@.len() == n_rows * lwe_dim,
            d@.len() == n_rows * width,
            k_tiles == geometry::ceil_div(l, 4),
            i0 <= n_rows,
            partial_gemm(h@, h0, a@, d@, l, w, 0, 0, 0, i0 as int, i0 as int),
        decreases n_rows - i0,
    {
        let kc: usize = if KC < n_rows - i0 {
            KC
        } else {
            n_rows - i0
        };
        let mut tiles: Vec<Vec<u32>> = Vec::with_capacity(k_tiles);
        let mut kt: usize = 0;
        while kt < k_tiles
            invariant
                l == lwe_dim > 0,
                a@.len() == n_rows * lwe_dim,
                k_tiles == geometry::ceil_div(l, 4),
                kt <= k_tiles,
                i0 + kc <= n_rows,
                kc <= 256,
                are_tiles(tiles@, a@, l, i0 as int, kc as int, kt as int),
            decreases k_tiles - kt,
        {
            tiles.push(pack_tile(a, lwe_dim, n_rows, i0, kc, kt * MR));
            kt = kt + 1;
        }
        let mut j0: usize = 0;
        while j0 < width
            invariant
                lwe_dim > 0,
                l == lwe_dim,
                w == width,
                a@.len() == n_rows * lwe_dim,
                d@.len() == n_rows * width,
                k_tiles == geometry::ceil_div(l, 4),
                i0 + kc <= n_rows,
                kc <= 256,
                j0 <= width,
                are_tiles(tiles@, a@, l, i0 as int, kc as int, k_tiles as int),
                partial_gemm(
                    h@,
                    h0,
                    a@,
                    d@,
                    l,
                    w,
                    j0 as int,
                    j0 as int,
                    0,
                    i0 as int,
                    i0 + kc,
                ),
            decreases width - j0,
        {
            let j1: usize = if NR <= width - j0 {
                j0 + NR
            } else {
                width
            };
            gemm_columns(
                h,
                &tiles,
                a,
                d,
                i0,
                kc,
                j0,
                j1,
                lwe_dim,
                width,
                n_rows,
                Ghost(h0),
            );
            j0 = j1;
        }
        i0 = i0 + kc;
    }
}

} // verus!
