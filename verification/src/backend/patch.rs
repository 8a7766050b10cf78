//! Sparse updates of a hint: the touched columns of one database row.
use vstd::prelude::*;

use crate::arith;
use crate::backend::gemm;

verus! {

// ---------------------------------------------------------------- column sums
/// The hint column of a cell offset under the closure `f`.
pub open spec fn column_of<F: Fn(u16) -> usize>(f: F, off: u16) -> int {
    (choose|c: usize| call_ensures(f, (off,), c)) as int
}

/// `f` can be called on every offset and gives each offset one column.
pub open spec fn is_column_map<F: Fn(u16) -> usize>(f: F) -> bool {
    &&& forall|off: u16| #[trigger] call_requires(f, (off,))
    &&& forall|off: u16, c: usize|
        #[trigger] call_ensures(f, (off,), c) ==> c == column_of(f, off)
}

/// `f` returns `g(off)` on every offset on which it returns.
pub open spec fn is_column_fn<F: Fn(u16) -> usize>(f: F, g: spec_fn(u16) -> int) -> bool {
    forall|off: u16, c: usize| #[trigger] call_ensures(f, (off,), c) ==> c == g(off)
}

/// Sum of the deltas of the cells that lie in column `c`.
pub open spec fn column_total(
    cells: Seq<(u16, i64)>,
    column: spec_fn(u16) -> int,
    c: int,
) -> int
    decreases cells.len(),
{
    if cells.len() == 0 {
        0
    } else {
        column_total(cells.drop_last(), column, c) + if column(cells.last().0) == c {
            cells.last().1 as int
        } else {
            0
        }
    }
}

/// Sums over maps that agree on the offsets of the non-zero cells are equal.
pub proof fn lemma_column_total_cong(
    cells: Seq<(u16, i64)>,
    f: spec_fn(u16) -> int,
    g: spec_fn(u16) -> int,
    c: int,
)
    requires
        forall|i: int|
            0 <= i < cells.len() && (#[trigger] cells[i]).1 != 0 ==> f(cells[i].0) == g(
                cells[i].0,
            ),
    ensures
        column_total(cells, f, c) == column_total(cells, g, c),
    decreases cells.len(),
{
    if cells.len() > 0 {
        let init = cells.drop_last();
        assert forall|i: int| 0 <= i < init.len() && (#[trigger] init[i]).1 != 0 implies f(
            init[i].0,
        ) == g(init[i].0) by {
            assert(init[i] == cells[i]);
        }
        lemma_column_total_cong(init, f, g, c);
        assert(cells.last() == cells[cells.len() - 1]);
    }
}

/// A column that no cell lies in sums up to zero.
pub proof fn lemma_column_total_absent(
    cells: Seq<(u16, i64)>,
    f: spec_fn(u16) -> int,
    c: int,
)
    requires
        forall|i: int| 0 <= i < cells.len() ==> f((#[trigger] cells[i]).0) != c,
    ensures
        column_total(cells, f, c) == 0,
    decreases cells.len(),
{
    if cells.len() > 0 {
        let init = cells.drop_last();
        assert forall|i: int| 0 <= i < init.len() implies f((#[trigger] init[i]).0) != c by {
            assert(f(cells[i].0) != c);
        }
        lemma_column_total_absent(init, f, c);
        assert(f(cells[cells.len() - 1].0) != c);
    }
}

// ---------------------------------------------------------------- sorted entries
/// Columns ascend strictly.
pub open spec fn ascending(s: Seq<(usize, u32)>) -> bool {
    forall|i: int, j: int| 0 <= i < j < s.len() ==> s[i].0 < s[j].0
}

/// The residue held for column `c`, or zero.
pub open spec fn lookup(s: Seq<(usize, u32)>, c: int) -> u32 {
    if exists|i: int| 0 <= i < s.len() && (#[trigger] s[i]).0 == c {
        s[choose|i: int| 0 <= i < s.len() && (#[trigger] s[i]).0 == c].1
    } else {
        0
    }
}

pub proof fn lemma_lookup(s: Seq<(usize, u32)>, i: int)
    requires
        ascending(s),
        0 <= i < s.len(),
    ensures
        lookup(s, s[i].0 as int) == s[i].1,
{
    let c = s[i].0 as int;
    let k = choose|k: int| 0 <= k < s.len() && (#[trigger] s[k]).0 == c;
    assert(0 <= k < s.len() && s[k].0 == c);
    if k < i {
        assert(s[k].0 < s[i].0);
    } else if i < k {
        assert(s[i].0 < s[k].0);
    }
}

/// Adds `d` to the residue of column `col`.
fn add_entry(s: &mut Vec<(usize, u32)>, col: usize, d: u32)
    requires
        ascending(old(s)@),
    ensures
        ascending(final(s)@),
        forall|c: int| #[trigger] lookup(final(s)@, c) == if c == col {
            arith::wrap(lookup(old(s)@, c) + d)
        } else {
            lookup(old(s)@, c)
        },
        forall|i: int|
            0 <= i < final(s)@.len() ==> (#[trigger] final(s)@[i]).0 == col || exists|k: int|
                0 <= k < old(s)@.len() && (#[trigger] old(s)@[k]).0 == final(s)@[i].0,
{
    let ghost before = s@;
    let mut p: usize = s.len();
    while p > 0 && s[p - 1].0 > col
        invariant
            p <= s@.len(),
            s@ == before,
            forall|i: int| p <= i < before.len() ==> (#[trigger] before[i]).0 > col,
        decreases p,
    {
        p = p - 1;
    }
    if p > 0 && s[p - 1].0 == col {
        let old_d: u32 = s[p - 1].1;
        s.set(p - 1, (col, arith::add_mod(old_d, d)));
        proof {
            let after = s@;
            assert forall|i: int, j: int| 0 <= i < j < after.len() implies after[i].0
                < after[j].0 by {
                assert(before[i].0 < before[j].0);
            }
            assert forall|c: int| #[trigger] lookup(after, c) == if c == col {
                arith::wrap(lookup(before, c) + d)
            } else {
                lookup(before, c)
            } by {
                if exists|i: int| 0 <= i < before.len() && (#[trigger] before[i]).0 == c {
                    let i = choose|i: int| 0 <= i < before.len() && (#[trigger] before[i]).0 == c;
                    lemma_lookup(before, i);
                    lemma_lookup(after, i);
                    assert(after[i].0 == c);
                    if c == col {
                        lemma_lookup(before, p - 1);
                        lemma_lookup(after, p - 1);
                    } else {
                        assert(i != p - 1);
                    }
                } else {
                    if exists|i: int| 0 <= i < after.len() && (#[trigger] after[i]).0 == c {
                        let i = choose|i: int| 0 <= i < after.len() && (#[trigger] after[i]).0 == c;
                        assert(before[i].0 == c);
                    }
                    assert(before[p - 1].0 == col);
                }
            }
            assert forall|i: int| 0 <= i < after.len() implies (#[trigger] after[i]).0 == col
                || exists|k: int|
                0 <= k < before.len() && (#[trigger] before[k]).0 == after[i].0 by {
                assert(before[i].0 == after[i].0);
            }
        }
    } else {
        s.insert(p, (col, d));
        proof {
            let after = s@;
            if p > 0 {
                assert(before[p - 1].0 < col);
            }
            assert forall|i: int, j: int| 0 <= i < j < after.len() implies after[i].0
                < after[j].0 by {
                if j < p {
                    assert(before[i].0 < before[j].0);
                } else if j == p {
                    if i < p - 1 {
                        assert(before[i].0 < before[p - 1].0);
                    }
                } else if i < p {
                    assert(before[i].0 < before[j - 1].0);
                } else if i == p {
                    assert(before[j - 1].0 > col);
                } else {
                    assert(before[i - 1].0 < before[j - 1].0);
                }
            }
            assert forall|c: int| #[trigger] lookup(after, c) == if c == col {
                arith::wrap(lookup(before, c) + d)
            } else {
                lookup(before, c)
            } by {
                if c == col {
                    assert(forall|i: int|
                        0 <= i < before.len() ==> (#[trigger] before[i]).0 != col) by {
                        assert forall|i: int| 0 <= i < before.len() implies (
                        #[trigger] before[i]).0 != col by {
                            if i < p - 1 {
                                assert(before[i].0 < before[p - 1].0);
                            }
                        }
                    }
                    assert(after[p as int].0 == col);
                    lemma_lookup(after, p as int);
                    arith::lemma_wrap_id(d);
                } else if exists|i: int| 0 <= i < before.len() && (#[trigger] before[i]).0 == c {
                    let i = choose|i: int| 0 <= i < before.len() && (#[trigger] before[i]).0 == c;
                    let k = if i < p {
                        i
                    } else {
                        i + 1
                    };
                    assert(after[k] == before[i]);
                    lemma_lookup(before, i);
                    lemma_lookup(after, k);
                } else if exists|i: int| 0 <= i < after.len() && (#[trigger] after[i]).0 == c {
                    let i = choose|i: int| 0 <= i < after.len() && (#[trigger] after[i]).0 == c;
                    let k = if i < p {
                        i
                    } else {
                        i - 1
                    };
                    assert(i != p);
                    assert(after[i] == before[k]);
                }
            }
            assert forall|i: int| 0 <= i < after.len() implies (#[trigger] after[i]).0 == col
                || exists|k: int|
                0 <= k < before.len() && (#[trigger] before[k]).0 == after[i].0 by {
                if i != p {
                    let k = if i < p {
                        i
                    } else {
                        i - 1
                    };
                    assert(before[k].0 == after[i].0);
                }
            }
        }
    }
}

/// Appending an entry past the last column.
proof fn lemma_lookup_push(s: Seq<(usize, u32)>, e: (usize, u32), c: int)
    requires
        ascending(s),
        s.len() > 0 ==> s.last().0 < e.0,
    ensures
        ascending(s.push(e)),
        lookup(s.push(e), c) == if c == e.0 {
            e.1
        } else {
            lookup(s, c)
        },
        lookup(s, e.0 as int) == 0,
{
    let t = s.push(e);
    let n = s.len() as int;
    assert forall|i: int, j: int| 0 <= i < j < t.len() implies t[i].0 < t[j].0 by {
        if j < n {
            assert(s[i].0 < s[j].0);
        } else if i < n - 1 {
            assert(s[i].0 < s[n - 1].0);
        }
    }
    assert forall|i: int| 0 <= i < n implies (#[trigger] s[i]).0 != e.0 by {
        if i < n - 1 {
            assert(s[i].0 < s[n - 1].0);
        }
    }
    if c == e.0 {
        assert(t[n].0 == c);
        lemma_lookup(t, n);
    } else if exists|i: int| 0 <= i < s.len() && (#[trigger] s[i]).0 == c {
        let i = choose|i: int| 0 <= i < s.len() && (#[trigger] s[i]).0 == c;
        assert(t[i] == s[i]);
        lemma_lookup(s, i);
        lemma_lookup(t, i);
    } else if exists|i: int| 0 <= i < t.len() && (#[trigger] t[i]).0 == c {
        let i = choose|i: int| 0 <= i < t.len() && (#[trigger] t[i]).0 == c;
        assert(i < n);
        assert(s[i].0 == c);
    }
}

// ---------------------------------------------------------------- runs
/// Cells in the first `t` runs.
pub open spec fn fed(runs: Seq<(usize, usize)>, t: int) -> int
    decreases t,
{
    if t <= 0 {
        0
    } else {
        fed(runs, t - 1) + runs[t - 1].1
    }
}

/// Run `t` covers its entries, column after column.
pub open spec fn run_covers(
    runs: Seq<(usize, usize)>,
    entries: Seq<(usize, u32)>,
    t: int,
) -> bool {
    &&& runs[t].1 >= 1
    &&& fed(runs, t) + runs[t].1 <= entries.len()
    &&& forall|i: int|
        fed(runs, t) <= i < fed(runs, t) + runs[t].1 ==> (#[trigger] entries[i]).0 == runs[t].0 + (i
            - fed(runs, t))
}

/// The runs cover all entries.
pub open spec fn runs_cover(runs: Seq<(usize, usize)>, entries: Seq<(usize, u32)>) -> bool {
    &&& fed(runs, runs.len() as int) == entries.len()
    &&& forall|t: int| 0 <= t < runs.len() ==> #[trigger] run_covers(runs, entries, t)
}

/// `fed` looks at the first `t` runs alone.
proof fn lemma_fed_prefix(a: Seq<(usize, usize)>, b: Seq<(usize, usize)>, t: int)
    requires
        t <= a.len(),
        t <= b.len(),
        forall|i: int| 0 <= i < t ==> a[i] == b[i],
    ensures
        fed(a, t) == fed(b, t),
    decreases t,
{
    if t > 0 {
        lemma_fed_prefix(a, b, t - 1);
    }
}

proof fn lemma_fed_nonneg(runs: Seq<(usize, usize)>, t: int)
    ensures
        fed(runs, t) >= 0,
    decreases t,
{
    if t > 0 {
        lemma_fed_nonneg(runs, t - 1);
    }
}

/// One database row's touched hint columns, coalesced into runs of neighbours.
///
/// Columns whose deltas sum up to zero are left out: they cannot move the hint.
pub struct TouchedRuns {
    deltas: Vec<u32>,
    runs: Vec<(usize, usize)>,
    scratch: Vec<(usize, u32)>,
    entries: Ghost<Seq<(usize, u32)>>,
}

impl TouchedRuns {
    /// The runs and deltas spell out the touched columns.
    pub closed spec fn wf(self) -> bool {
        &&& ascending(self.entries@)
        &&& self.deltas@.len() == self.entries@.len()
        &&& forall|i: int|
            0 <= i < self.entries@.len() ==> (#[trigger] self.entries@[i]).1 == self.deltas@[i]
                && self.entries@[i].1 != 0
        &&& runs_cover(self.runs@, self.entries@)
    }

    /// The residue that column `c` is patched with.
    pub closed spec fn delta(self, c: int) -> u32 {
        lookup(self.entries@, c)
    }

    /// All touched columns are below `width`.
    pub closed spec fn within(self, width: int) -> bool {
        forall|i: int| 0 <= i < self.entries@.len() ==> (#[trigger] self.entries@[i]).0 < width
    }

    /// An empty buffer.
    pub fn new() -> (t: Self)
        ensures
            t.wf(),
            forall|c: int| #[trigger] t.delta(c) == 0,
    {
        TouchedRuns {
            deltas: Vec::new(),
            runs: Vec::new(),
            scratch: Vec::new(),
            entries: Ghost(Seq::empty()),
        }
    }

    /// A touched column is below `width` where untouched columns are the only others.
    pub proof fn lemma_within(self, width: int)
        requires
            self.wf(),
            forall|c: int| c >= width ==> #[trigger] self.delta(c) == 0,
        ensures
            self.within(width),
    {
        assert forall|i: int| 0 <= i < self.entries@.len() implies (
        #[trigger] self.entries@[i]).0 < width by {
            lemma_lookup(self.entries@, i);
            if self.entries@[i].0 >= width {
                assert(self.delta(self.entries@[i].0 as int) == 0);
            }
        }
    }

    /// Refills the buffer from one row's sparse edits; `column_of` maps a cell offset to
    /// the hint column that it patches.
    ///
    /// Edits of the same column are summed up; columns whose sum is zero are dropped; the
    /// others are coalesced into runs.
    pub fn rebuild<F: Fn(u16) -> usize>(&mut self, cells: &[(u16, i64)], column_of: F)
        requires
            is_column_map(column_of),
        ensures
            final(self).wf(),
            forall|g: spec_fn(u16) -> int, c: int|
                is_column_fn(column_of, g) ==> final(self).delta(c) == arith::wrap(
                    #[trigger] column_total(cells@, g, c),
                ),
    {
        let ghost col = |off: u16| self::column_of(column_of, off);
        self.scratch.clear();
        self.deltas.clear();
        self.runs.clear();
        let mut i: usize = 0;
        proof {
            assert(cells@.take(0) =~= Seq::<(u16, i64)>::empty());
        }
        while i < cells.len()
            invariant
                i <= cells@.len(),
                is_column_map(column_of),
                col == (|off: u16| self::column_of(column_of, off)),
                self.deltas@.len() == 0,
                self.runs@.len() == 0,
                ascending(self.scratch@),
                forall|k: int|
                    0 <= k < i && (#[trigger] cells@[k]).1 != 0 ==> call_ensures(
                        column_of,
                        (cells@[k].0,),
                        col(cells@[k].0) as usize,
                    ),
                forall|c: int| #[trigger] lookup(self.scratch@, c) == arith::wrap(
                    column_total(cells@.take(i as int), col, c),
                ),
            decreases cells@.len() - i,
        {
            let off: u16 = cells[i].0;
            let delta: i64 = cells[i].1;
            let ghost before = self.scratch@;
            proof {
                let t = cells@.take(i + 1);
                assert(t.drop_last() =~= cells@.take(i as int));
                assert(t.last() == cells@[i as int]);
            }
            if delta != 0 {
                let c: usize = column_of(off);
                let d: u32 = arith::residue(delta);
                add_entry(&mut self.scratch, c, d);
                proof {
                    assert forall|x: int| #[trigger] lookup(self.scratch@, x) == arith::wrap(
                        column_total(cells@.take(i + 1), col, x),
                    ) by {
                        let s = column_total(cells@.take(i as int), col, x);
                        assert(lookup(before, x) == arith::wrap(s));
                        arith::lemma_wrap_add(s, d as int);
                        arith::lemma_wrap_add(s, delta as int);
                    }
                }
            }
            i = i + 1;
        }
        proof {
            assert(cells@.take(cells@.len() as int) =~= cells@);
        }
        self.coalesce();
        proof {
            assert forall|g: spec_fn(u16) -> int, c: int| is_column_fn(
                column_of,
                g,
            ) implies self.delta(c) == arith::wrap(#[trigger] column_total(cells@, g, c)) by {
                lemma_column_total_cong(cells@, col, g, c);
            }
        }
    }

    /// Turns the sorted entries into runs.
    fn coalesce(&mut self)
        requires
            ascending(old(self).scratch@),
            old(self).deltas@.len() == 0,
            old(self).runs@.len() == 0,
        ensures
            final(self).wf(),
            forall|c: int| #[trigger] final(self).delta(c) == lookup(old(self).scratch@, c),
    {
        let ghost all = self.scratch@;
        let ghost mut done: Seq<(usize, u32)> = Seq::empty();
        let mut last_col: Option<usize> = None;
        let mut i: usize = 0;
        proof {
            assert(all.take(0) =~= Seq::<(usize, u32)>::empty());
        }
        while i < self.scratch.len()
            invariant
                i <= all.len(),
                self.scratch@ == all,
                ascending(all),
                ascending(done),
                self.deltas@.len() == done.len(),
                forall|k: int|
                    0 <= k < done.len() ==> (#[trigger] done[k]).1 == self.deltas@[k] && done[k].1
                        != 0,
                runs_cover(self.runs@, done),
                last_col == if done.len() == 0 {
                    None::<usize>
                } else {
                    Some(done.last().0)
                },
                done.len() > 0 ==> self.runs@.len() > 0,
                done.len() > 0 && i < all.len() ==> done.last().0 < all[i as int].0,
                forall|c: int| #[trigger] lookup(done, c) == lookup(all.take(i as int), c),
            decreases all.len() - i,
        {
            let col: usize = self.scratch[i].0;
            let delta: u32 = self.scratch[i].1;
            let ghost e = all[i as int];
            let ghost before = done;
            let ghost before_runs = self.runs@;
            proof {
                let t = all.take(i as int);
                assert(all.take(i + 1) =~= t.push(e));
                assert(ascending(t)) by {
                    assert forall|a: int, b: int| 0 <= a < b < t.len() implies t[a].0
                        < t[b].0 by {
                        assert(all[a].0 < all[b].0);
                    }
                }
                if t.len() > 0 {
                    assert(t.last() == all[i - 1]);
                    assert(all[i - 1].0 < all[i as int].0);
                }
                assert forall|c: int| #[trigger] lookup(all.take(i + 1), c) == if c == e.0 {
                    e.1
                } else {
                    lookup(t, c)
                } by {
                    lemma_lookup_push(t, e, c);
                }
                lemma_lookup_push(t, e, 0);
                assert(lookup(done, e.0 as int) == 0);
                if i + 1 < all.len() {
                    assert(all[i as int].0 < all[i + 1].0);
                }
            }
            if delta != 0 {
                let adjacent: bool = match last_col {
                    Some(prev) => col - prev == 1,
                    None => false,
                };
                self.deltas.push(delta);
                if adjacent {
                    let k: usize = self.runs.len() - 1;
                    let run: (usize, usize) = self.runs[k];
                    proof {
                        lemma_fed_nonneg(self.runs@, k as int);
                        assert(run_covers(self.runs@, before, k as int));
                        assert(self.deltas.len() == self.deltas@.len());
                    }
                    self.runs.set(k, (run.0, run.1 + 1));
                } else {
                    self.runs.push((col, 1));
                }
                last_col = Some(col);
                proof {
                    done = before.push(e);
                    lemma_lookup_push(before, e, 0);
                    assert forall|c: int| #[trigger] lookup(done, c) == lookup(
                        all.take(i + 1),
                        c,
                    ) by {
                        lemma_lookup_push(before, e, c);
                        assert(lookup(before, c) == lookup(all.take(i as int), c));
                    }
                    lemma_runs_step(before_runs, self.runs@, before, e, adjacent);
                }
            } else {
                proof {
                    assert forall|c: int| #[trigger] lookup(done, c) == lookup(
                        all.take(i + 1),
                        c,
                    ) by {
                        assert(lookup(before, c) == lookup(all.take(i as int), c));
                    }
                }
            }
            i = i + 1;
        }
        self.entries = Ghost(done);
        proof {
            assert(all.take(all.len() as int) =~= all);
        }
    }

    /// Whether there is nothing to patch.
    pub fn is_empty(&self) -> (b: bool)
        requires
            self.wf(),
        ensures
            b == (forall|c: int| #[trigger] self.delta(c) == 0),
    {
        proof {
            let n = self.runs@.len() as int;
            if n > 0 {
                assert(run_covers(self.runs@, self.entries@, n - 1));
                lemma_fed_nonneg(self.runs@, n - 1);
                lemma_lookup(self.entries@, 0);
                assert(self.delta(self.entries@[0].0 as int) != 0);
            }
        }
        self.runs.len() == 0
    }

    /// Adds `a_row[k]` times the residue of column `c` to cell `(k, c)` of the hint.
    pub fn apply(&self, a_row: &[u32], hint: &mut [u32], hint_row_width: usize)
        requires
            self.wf(),
            self.within(hint_row_width as int),
            old(hint)@.len() == a_row@.len() * hint_row_width,
        ensures
            final(hint)@.len() == old(hint)@.len(),
            forall|k: int, c: int|
                0 <= k < a_row@.len() && 0 <= c < hint_row_width ==> #[trigger] arith::cell(
                    final(hint)@,
                    hint_row_width as int,
                    k,
                    c,
                ) == arith::wrap(
                    arith::cell(old(hint)@, hint_row_width as int, k, c) + a_row@[k] * self.delta(
                        c,
                    ),
                ),
    {
        let n: usize = a_row.len();
        let ghost w = hint_row_width as int;
        let ghost h0 = hint@;
        let ghost es = self.entries@;
        let mut k: usize = 0;
        assert(hint.len() == hint@.len());
        while k < n
            invariant
                k <= n == a_row@.len(),
                w == hint_row_width,
                self.wf(),
                self.within(w),
                es == self.entries@,
                hint@.len() == h0.len() == n * w <= usize::MAX,
                h0 == old(hint)@,
                forall|r: int, c: int|
                    0 <= r < n && 0 <= c < w ==> #[trigger] arith::cell(hint@, w, r, c) == if r < k {
                        arith::wrap(arith::cell(h0, w, r, c) + a_row@[r] * lookup(es, c))
                    } else {
                        arith::cell(h0, w, r, c)
                    },
            decreases n - k,
        {
            let aik: u32 = a_row[k];
            let mut f: usize = 0;
            let mut t: usize = 0;
            proof {
                assert(es.take(0) =~= Seq::<(usize, u32)>::empty());
                assert forall|c: int| 0 <= c < w implies #[trigger] arith::cell(
                    hint@,
                    w,
                    k as int,
                    c,
                ) == arith::wrap(
                    arith::cell(h0, w, k as int, c) + aik * lookup(es.take(0), c),
                ) by {
                    arith::lemma_wrap_id(arith::cell(h0, w, k as int, c));
                    assert(aik * 0 == 0);
                }
            }
            while t < self.runs.len()
                invariant
                    k < n == a_row@.len(),
                    aik == a_row@[k as int],
                    w == hint_row_width,
                    self.wf(),
                    self.within(w),
                    es == self.entries@,
                    hint@.len() == h0.len() == n * w <= usize::MAX,
                    t <= self.runs@.len(),
                    f == fed(self.runs@, t as int) <= es.len(),
                    forall|r: int, c: int|
                        0 <= r < n && 0 <= c < w ==> #[trigger] arith::cell(hint@, w, r, c) == if r
                            < k {
                            arith::wrap(arith::cell(h0, w, r, c) + a_row@[r] * lookup(es, c))
                        } else if r == k {
                            arith::wrap(
                                arith::cell(h0, w, r, c) + aik * lookup(es.take(f as int), c),
                            )
                        } else {
                            arith::cell(h0, w, r, c)
                        },
                decreases self.runs@.len() - t,
            {
                let start: usize = self.runs[t].0;
                let len: usize = self.runs[t].1;
                let base: usize = f;
                proof {
                    assert(run_covers(self.runs@, es, t as int));
                    assert(self.deltas.len() == self.deltas@.len());
                }
                let mut x: usize = 0;
                while x < len
                    invariant
                        k < n == a_row@.len(),
                        aik == a_row@[k as int],
                        w == hint_row_width,
                        self.wf(),
                        self.within(w),
                        es == self.entries@,
                        hint@.len() == h0.len() == n * w <= usize::MAX,
                        t < self.runs@.len(),
                        self.runs@[t as int] == (start, len),
                        base == fed(self.runs@, t as int),
                        run_covers(self.runs@, es, t as int),
                        x <= len,
                        f == base + x,
                        base + len <= es.len() == self.deltas@.len() <= usize::MAX,
                        forall|r: int, c: int|
                            0 <= r < n && 0 <= c < w ==> #[trigger] arith::cell(hint@, w, r, c)
                                == if r < k {
                                arith::wrap(arith::cell(h0, w, r, c) + a_row@[r] * lookup(es, c))
                            } else if r == k {
                                arith::wrap(
                                    arith::cell(h0, w, r, c) + aik * lookup(
                                        es.take(f as int),
                                        c,
                                    ),
                                )
                            } else {
                                arith::cell(h0, w, r, c)
                            },
                    decreases len - x,
                {
                    let ghost e = es[f as int];
                    proof {
                        assert(e.0 == start + x);
                        assert(e.0 < w);
                        arith::lemma_cell(k as int, start + x, n as int, w);
                    }
                    let at: usize = k * hint_row_width + (start + x);
                    let ghost before = hint@;
                    let d: u32 = self.deltas[f];
                    let v: u32 = arith::mac(hint[at], aik, d);
                    hint[at] = v;
                    proof {
                        arith::lemma_cell_update(before, n as int, w, k as int, start + x, v);
                        lemma_take_lookup(es, f as int);
                        assert(es.take(f as int + 1) == es.take(f as int).push(e));
                        assert forall|r: int, c: int|
                            0 <= r < n && 0 <= c < w implies #[trigger] arith::cell(hint@, w, r, c)
                            == if r < k {
                            arith::wrap(arith::cell(h0, w, r, c) + a_row@[r] * lookup(es, c))
                        } else if r == k {
                            arith::wrap(
                                arith::cell(h0, w, r, c) + aik * lookup(es.take(f as int + 1), c),
                            )
                        } else {
                            arith::cell(h0, w, r, c)
                        } by {
                            assert(arith::cell(before, w, r, c) == if r < k {
                                arith::wrap(arith::cell(h0, w, r, c) + a_row@[r] * lookup(es, c))
                            } else if r == k {
                                arith::wrap(
                                    arith::cell(h0, w, r, c) + aik * lookup(es.take(f as int), c),
                                )
                            } else {
                                arith::cell(h0, w, r, c)
                            });
                            if r == k {
                                lemma_lookup_push(es.take(f as int), e, c);
                                if c == start + x {
                                    let h = arith::cell(h0, w, r, c) as int;
                                    assert(aik * 0 == 0);
                                    arith::lemma_wrap_add(h, aik * d);
                                }
                            }
                        }
                    }
                    f = f + 1;
                    x = x + 1;
                }
                t = t + 1;
            }
            proof {
                assert(es.take(es.len() as int) =~= es);
            }
            k = k + 1;
        }
    }
}

/// A prefix of ascending entries, and its next entry.
proof fn lemma_take_lookup(es: Seq<(usize, u32)>, f: int)
    requires
        ascending(es),
        0 <= f < es.len(),
    ensures
        ascending(es.take(f)),
        es.take(f + 1) == es.take(f).push(es[f]),
        es.take(f).len() > 0 ==> es.take(f).last().0 < es[f].0,
{
    let t = es.take(f);
    assert forall|a: int, b: int| 0 <= a < b < t.len() implies t[a].0 < t[b].0 by {
        assert(es[a].0 < es[b].0);
    }
    assert(es.take(f + 1) =~= t.push(es[f]));
    if f > 0 {
        assert(es[f - 1].0 < es[f].0);
    }
}

/// The runs still cover the entries after a further one.
proof fn lemma_runs_step(
    old_runs: Seq<(usize, usize)>,
    runs: Seq<(usize, usize)>,
    entries: Seq<(usize, u32)>,
    e: (usize, u32),
    adjacent: bool,
)
    requires
        runs_cover(old_runs, entries),
        adjacent ==> {
            &&& old_runs.len() > 0
            &&& entries.len() > 0
            &&& e.0 == entries.last().0 + 1
            &&& runs == old_runs.update(
                old_runs.len() - 1,
                (old_runs.last().0, (old_runs.last().1 + 1) as usize),
            )
            &&& old_runs.last().1 + 1 <= usize::MAX
        },
        !adjacent ==> runs == old_runs.push((e.0, 1)),
    ensures
        runs_cover(runs, entries.push(e)),
{
    let next = entries.push(e);
    let m = old_runs.len() as int;
    if adjacent {
        let k = m - 1;
        lemma_fed_prefix(runs, old_runs, k);
        assert(run_covers(old_runs, entries, k));
        assert(fed(runs, m) == fed(runs, k) + runs[k].1);
        assert(fed(old_runs, m) == fed(old_runs, k) + old_runs[k].1);
        assert forall|t: int| 0 <= t < runs.len() implies #[trigger] run_covers(runs, next, t) by {
            lemma_fed_prefix(runs, old_runs, t);
            assert(run_covers(old_runs, entries, t));
            lemma_fed_nonneg(runs, t);
            assert forall|i: int| fed(runs, t) <= i < fed(runs, t) + runs[t].1 implies (
            #[trigger] next[i]).0 == runs[t].0 + (i - fed(runs, t)) by {
                if i < entries.len() {
                    assert(next[i] == entries[i]);
                } else {
                    assert(entries[entries.len() - 1].0 == old_runs[k].0 + (entries.len() - 1 - fed(
                        old_runs,
                        k,
                    )));
                }
            }
        }
    } else {
        lemma_fed_prefix(runs, old_runs, m);
        assert(fed(runs, m + 1) == fed(runs, m) + runs[m].1);
        assert forall|t: int| 0 <= t < runs.len() implies #[trigger] run_covers(runs, next, t) by {
            lemma_fed_prefix(runs, old_runs, t);
            lemma_fed_nonneg(runs, t);
            if t < m {
                assert(run_covers(old_runs, entries, t));
                assert(runs[t] == old_runs[t]);
                assert forall|i: int| fed(runs, t) <= i < fed(runs, t) + runs[t].1 implies (
                #[trigger] next[i]).0 == runs[t].0 + (i - fed(runs, t)) by {
                    assert(next[i] == entries[i]);
                }
            }
        }
    }
}

// ---------------------------------------------------------------- dense rows
/// Cells of scratch space that one batch of a row-level patch may take.
pub const ROW_LEVEL_BATCH_CELLS: usize = 1_048_576;

/// Edited rows that a row-level patch handles at a time: as many as fit the scratch space,
/// and at least one.
pub open spec fn batch_rows(row_width: int, lwe_dim: int) -> int {
    let per = if row_width + lwe_dim == 0 {
        1
    } else {
        row_width + lwe_dim
    };
    let n = ROW_LEVEL_BATCH_CELLS as int / per;
    if n == 0 {
        1
    } else {
        n
    }
}

/// Rows per batch of a row-level patch.
pub fn row_level_batch_rows(row_width: usize, lwe_dim: usize) -> (n: usize)
    ensures
        n == batch_rows(row_width as int, lwe_dim as int),
        n >= 1,
        n > 1 ==> n * (row_width + lwe_dim) <= ROW_LEVEL_BATCH_CELLS,
{
    let ghost sum = row_width + lwe_dim;
    if row_width >= ROW_LEVEL_BATCH_CELLS || lwe_dim >= ROW_LEVEL_BATCH_CELLS {
        proof {
            if sum > ROW_LEVEL_BATCH_CELLS {
                vstd::arithmetic::div_mod::lemma_basic_div(ROW_LEVEL_BATCH_CELLS as int, sum);
            } else {
                vstd::arithmetic::div_mod::lemma_div_by_self(ROW_LEVEL_BATCH_CELLS as int);
            }
        }
        return 1;
    }
    let per: usize = if row_width + lwe_dim == 0 {
        1
    } else {
        row_width + lwe_dim
    };
    let n: usize = ROW_LEVEL_BATCH_CELLS / per;
    proof {
        vstd::arithmetic::div_mod::lemma_fundamental_div_mod(
            ROW_LEVEL_BATCH_CELLS as int,
            per as int,
        );
        vstd::arithmetic::mul::lemma_mul_is_commutative(per as int, n as int);
        if sum == 0 {
            assert(n * sum == 0) by (nonlinear_arith)
                requires
                    sum == 0,
            ;
        }
    }
    if n == 0 {
        1
    } else {
        n
    }
}

/// Adds the transpose of the selected rows `a_sel` times the dense deltas to the hint.
pub fn apply_dense_rows(
    hint: &mut [u32],
    a_sel: &[u32],
    delta: &[u32],
    lwe_dim: usize,
    width: usize,
)
    requires
        lwe_dim > 0 ==> a_sel@.len() % (lwe_dim as nat) == 0,
        lwe_dim > 0 ==> delta@.len() == (a_sel@.len() / (lwe_dim as nat)) * width,
        old(hint)@.len() == lwe_dim * width,
    ensures
        lwe_dim == 0 ==> final(hint)@ == old(hint)@,
        lwe_dim > 0 ==> gemm::is_gemm(
            final(hint)@,
            old(hint)@,
            a_sel@,
            delta@,
            lwe_dim as int,
            width as int,
            a_sel@.len() as int / lwe_dim as int,
        ),
{
    gemm::gemm_at_d_accumulate(hint, a_sel, delta, lwe_dim, width);
}

} // verus!
