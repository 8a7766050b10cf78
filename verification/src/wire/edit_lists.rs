//! Comparing and copying lists of edits.
use vstd::prelude::*;

use crate::wire::hint_delta;
use crate::wire::hint_delta::SegmentRowDeltas;

verus! {

/// Whether two lists of cell edits are equal.
fn cells_equal(a: &[(u16, i64)], b: &[(u16, i64)]) -> (r: bool)
    ensures
        r == (a@ == b@),
{
    if a.len() != b.len() {
        return false;
    }
    let mut i: usize = 0;
    while i < a.len()
        invariant
            i <= a@.len() == b@.len(),
            forall|k: int| 0 <= k < i ==> a@[k] == b@[k],
        decreases a@.len() - i,
    {
        if a[i].0 != b[i].0 || a[i].1 != b[i].1 {
            return false;
        }
        i = i + 1;
    }
    proof {
        assert(a@ =~= b@);
    }
    true
}

/// Whether two lists of row edits are equal.
fn edits_equal(a: &SegmentRowDeltas, b: &SegmentRowDeltas) -> (r: bool)
    ensures
        r == (hint_delta::edits_view(a@) == hint_delta::edits_view(b@)),
{
    let ghost x = hint_delta::edits_view(a@);
    let ghost y = hint_delta::edits_view(b@);
    if a.len() != b.len() {
        assert(x.len() != y.len());
        return false;
    }
    let mut i: usize = 0;
    while i < a.len()
        invariant
            i <= a@.len() == b@.len(),
            x == hint_delta::edits_view(a@),
            y == hint_delta::edits_view(b@),
            forall|k: int| 0 <= k < i ==> x[k] == y[k],
        decreases a@.len() - i,
    {
        if a[i].0 != b[i].0 || !cells_equal(a[i].1.as_slice(), b[i].1.as_slice()) {
            assert(x[i as int] != y[i as int]);
            return false;
        }
        i = i + 1;
    }
    proof {
        assert(x =~= y);
    }
    true
}

/// Whether two lists of segments' edits are equal.
pub fn deltas_equal(a: &Vec<SegmentRowDeltas>, b: &Vec<SegmentRowDeltas>) -> (r: bool)
    ensures
        r == (hint_delta::deltas_view(a@) == hint_delta::deltas_view(b@)),
{
    let ghost x = hint_delta::deltas_view(a@);
    let ghost y = hint_delta::deltas_view(b@);
    if a.len() != b.len() {
        assert(x.len() != y.len());
        return false;
    }
    let mut i: usize = 0;
    while i < a.len()
        invariant
            i <= a@.len() == b@.len(),
            x == hint_delta::deltas_view(a@),
            y == hint_delta::deltas_view(b@),
            forall|k: int| 0 <= k < i ==> x[k] == y[k],
        decreases a@.len() - i,
    {
        if !edits_equal(&a[i], &b[i]) {
            assert(x[i as int] != y[i as int]);
            return false;
        }
        i = i + 1;
    }
    proof {
        assert(x =~= y);
    }
    true
}

/// A copy of one list of row edits.
fn copy_edits(a: &SegmentRowDeltas) -> (r: SegmentRowDeltas)
    ensures
        hint_delta::edits_view(r@) == hint_delta::edits_view(a@),
{
    let mut out: SegmentRowDeltas = Vec::with_capacity(a.len());
    let mut i: usize = 0;
    while i < a.len()
        invariant
            i <= a@.len(),
            out@.len() == i,
            forall|k: int|
                0 <= k < i ==> (#[trigger] out@[k]).0 == a@[k].0 && out@[k].1@ == a@[k].1@,
        decreases a@.len() - i,
    {
        out.push((a[i].0, vstd::slice::slice_to_vec(a[i].1.as_slice())));
        i = i + 1;
    }
    proof {
        assert(hint_delta::edits_view(out@) =~= hint_delta::edits_view(a@));
    }
    out
}

/// A copy of the edits of all segments.
pub fn copy_deltas(a: &Vec<SegmentRowDeltas>) -> (r: Vec<SegmentRowDeltas>)
    ensures
        hint_delta::deltas_view(r@) == hint_delta::deltas_view(a@),
{
    let mut out: Vec<SegmentRowDeltas> = Vec::with_capacity(a.len());
    let mut i: usize = 0;
    while i < a.len()
        invariant
            i <= a@.len(),
            out@.len() == i,
            forall|k: int|
                0 <= k < i ==> hint_delta::edits_view((#[trigger] out@[k])@)
                    == hint_delta::edits_view(a@[k]@),
        decreases a@.len() - i,
    {
        out.push(copy_edits(&a[i]));
        i = i + 1;
    }
    proof {
        assert(hint_delta::deltas_view(out@) =~= hint_delta::deltas_view(a@));
    }
    out
}

} // verus!
