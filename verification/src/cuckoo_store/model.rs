//! What the operations of the cuckoo map do to its slots.
use vstd::multiset::Multiset;
use vstd::prelude::*;

use crate::backend::prg;
use crate::cuckoo_store::MapError;
use crate::hash::IndexScheme;

verus! {

/// The contents of one slot: a fingerprint and a value, or nothing. Slot `s` of bucket `g`
/// lies at `g * b + s`, where buckets have `b` slots.
pub type Cell = Option<(u32, Seq<u8>)>;

// ---------------------------------------------------------------- searching
/// The first empty slot of bucket `g` from `s` on.
pub open spec fn first_empty(cells: Seq<Cell>, b: int, g: int, s: int) -> Option<int>
    decreases b - s,
{
    if s >= b {
        None
    } else if cells[g * b + s] is None {
        Some(s)
    } else {
        first_empty(cells, b, g, s + 1)
    }
}

/// The first slot of bucket `g` from `s` on that holds the fingerprint.
pub open spec fn first_tag(cells: Seq<Cell>, b: int, g: int, tag: u32, s: int) -> Option<int>
    decreases b - s,
{
    if s >= b {
        None
    } else if cells[g * b + s] is Some && (cells[g * b + s]->0).0 == tag {
        Some(s)
    } else {
        first_tag(cells, b, g, tag, s + 1)
    }
}

/// The place of the first empty slot in the buckets `buckets[j..]`, passing over
/// `buckets[skip]`; there are at most four buckets, so that a `skip` of 4 passes over none.
pub open spec fn first_place(
    cells: Seq<Cell>,
    b: int,
    buckets: Seq<u32>,
    skip: int,
    j: int,
) -> Option<int>
    decreases buckets.len() - j,
{
    if j >= buckets.len() {
        None
    } else if j != skip && first_empty(cells, b, buckets[j] as int, 0) is Some {
        Some(buckets[j] * b + first_empty(cells, b, buckets[j] as int, 0)->0)
    } else {
        first_place(cells, b, buckets, skip, j + 1)
    }
}

/// The place of the first slot in the buckets `buckets[j..]` that holds the fingerprint.
pub open spec fn first_found(
    cells: Seq<Cell>,
    b: int,
    buckets: Seq<u32>,
    tag: u32,
    j: int,
) -> Option<int>
    decreases buckets.len() - j,
{
    if j >= buckets.len() {
        None
    } else if first_tag(cells, b, buckets[j] as int, tag, 0) is Some {
        Some(buckets[j] * b + first_tag(cells, b, buckets[j] as int, tag, 0)->0)
    } else {
        first_found(cells, b, buckets, tag, j + 1)
    }
}

/// Whether one of the buckets holds the pair.
pub open spec fn has_pair(
    cells: Seq<Cell>,
    b: int,
    buckets: Seq<u32>,
    tag: u32,
    value: Seq<u8>,
) -> bool {
    exists|j: int, s: int|
        0 <= j < buckets.len() && 0 <= s < b && #[trigger] cells[buckets[j] * b + s] == Some(
            (tag, value),
        )
}

/// Every slot of the bucket is taken.
pub open spec fn is_full(cells: Seq<Cell>, b: int, g: int) -> bool {
    forall|s: int| 0 <= s < b ==> #[trigger] cells[g * b + s] is Some
}

// ---------------------------------------------------------------- insertion
/// What inserting a pair comes to: an error, or the slots after it and the buckets that
/// were touched on the way, in order; and the place in the key stream after it.
pub struct Outcome {
    /// Why nothing was inserted.
    pub error: Option<MapError>,
    /// The slots.
    pub cells: Seq<Cell>,
    /// The touched buckets.
    pub touched: Seq<u32>,
    /// The place of the next word of the key stream.
    pub pos: nat,
}

/// The place after `pos` in the key stream.
pub open spec fn step(pos: nat) -> nat {
    (pos + 1) % (prg::STREAM_WORDS as nat)
}

/// The candidates of a keyword, one per segment.
pub open spec fn candidates<S: IndexScheme>(sch: S, key: Seq<u8>, fp_bits: u32) -> Seq<u32> {
    Seq::new(sch.degree(), |j: int| sch.index_of(key, fp_bits, j))
}

/// The candidates of the item with fingerprint `tag` in bucket `g`, one per segment.
pub open spec fn alternates<S: IndexScheme>(sch: S, g: u32, tag: u32) -> Seq<u32> {
    Seq::new(sch.degree(), |j: int| sch.alternate(g, tag, j))
}

/// The segment other than `own` that the number `i` stands for.
pub open spec fn other_segment(i: int, own: int) -> int {
    if i < own {
        i
    } else {
        i + 1
    }
}

/// Up to `n` kicks, the first of which puts the pair into bucket `g` in place of a slot that
/// the key stream picks. The pair that was there goes to the first of its other buckets that
/// has room; where none has, the key stream picks the one in which the next kick happens.
pub open spec fn kicks<S: IndexScheme>(
    sch: S,
    b: int,
    seed: Seq<u8>,
    cells: Seq<Cell>,
    touched: Seq<u32>,
    pos: nat,
    g: u32,
    tag: u32,
    value: Seq<u8>,
    n: nat,
) -> Outcome
    decreases n,
{
    if n == 0 {
        Outcome { error: Some(MapError::TableFull), cells, touched, pos }
    } else {
        let slot = prg::keystream_word(seed, pos) as int % b;
        let out = cells[g * b + slot]->0;
        let next = cells.update(g * b + slot, Some((tag, value)));
        let seen = touched.push(g);
        let own = g as int / sch.segment() as int;
        let alts = alternates(sch, g, out.0);
        match first_place(next, b, alts, own, 0) {
            Some(y) => Outcome {
                error: None,
                cells: next.update(y, Some(out)),
                touched: seen.push((y / b) as u32),
                pos: step(pos),
            },
            None => {
                let i = prg::keystream_word(seed, step(pos)) as int % (sch.degree() - 1);
                kicks(
                    sch,
                    b,
                    seed,
                    next,
                    seen,
                    step(step(pos)),
                    alts[other_segment(i, own)],
                    out.0,
                    out.1,
                    (n - 1) as nat,
                )
            },
        }
    }
}

/// What inserting a pair comes to.
pub open spec fn insertion<S: IndexScheme>(
    sch: S,
    b: int,
    fp_bits: u32,
    value_len: u32,
    max_kicks: u32,
    seed: Seq<u8>,
    pos: nat,
    cells: Seq<Cell>,
    key: Seq<u8>,
    value: Seq<u8>,
) -> Outcome {
    let buckets = candidates(sch, key, fp_bits);
    let tag = sch.tag_of(key, fp_bits);
    if value.len() != value_len {
        Outcome { error: Some(MapError::ValueLength), cells, touched: Seq::empty(), pos }
    } else if has_pair(cells, b, buckets, tag, value) {
        Outcome { error: Some(MapError::Duplicate), cells, touched: Seq::empty(), pos }
    } else {
        match first_place(cells, b, buckets, 4, 0) {
            Some(y) => Outcome {
                error: None,
                cells: cells.update(y, Some((tag, value))),
                touched: seq![(y / b) as u32],
                pos,
            },
            None => {
                let start = prg::keystream_word(seed, pos) as int % sch.degree() as int;
                let out = kicks(
                    sch,
                    b,
                    seed,
                    cells,
                    Seq::empty(),
                    step(pos),
                    buckets[start],
                    tag,
                    value,
                    max_kicks as nat,
                );
                if out.error is None {
                    out
                } else {
                    Outcome { cells, touched: Seq::empty(), ..out }
                }
            },
        }
    }
}

/// The touched buckets, each where it was touched last.
pub open spec fn last_touches(touched: Seq<u32>, n: int) -> Seq<u32>
    decreases n,
{
    if n <= 0 {
        Seq::empty()
    } else if touched.skip(n).contains(touched[n - 1]) {
        last_touches(touched, n - 1)
    } else {
        last_touches(touched, n - 1).push(touched[n - 1])
    }
}

// ---------------------------------------------------------------- shape
/// The slots of all buckets are there.
pub open spec fn shaped<S: IndexScheme>(sch: S, b: int, cells: Seq<Cell>) -> bool {
    &&& sch.ok()
    &&& b > 0
    &&& cells.len() == sch.degree() * sch.segment() * b
}

/// A slot lies within the map, and knows its bucket.
pub proof fn lemma_slot<S: IndexScheme>(sch: S, b: int, cells: Seq<Cell>, g: int, s: int)
    requires
        shaped(sch, b, cells),
        0 <= g < sch.degree() * sch.segment(),
        0 <= s < b,
    ensures
        0 <= g * b,
        0 <= g * b + s < cells.len(),
        (g * b + s) / b == g,
        (g + 1) * b <= cells.len(),
{
    crate::arith::lemma_cell(g, s, (sch.degree() * sch.segment()) as int, b);
}

/// A bucket of segment `j` is one of the map's buckets.
pub proof fn lemma_bucket_in_range<S: IndexScheme>(sch: S, g: int, j: int)
    requires
        sch.ok(),
        0 <= j < sch.degree(),
        j * sch.segment() <= g < (j + 1) * sch.segment(),
    ensures
        0 <= g < sch.degree() * sch.segment(),
        g / sch.segment() as int == j,
        g % sch.segment() as int == g - j * sch.segment(),
{
    sch.lemma_shape();
    let seg = sch.segment() as int;
    let k = sch.degree() as int;
    assert(0 <= j * seg) by (nonlinear_arith)
        requires
            0 <= j,
            0 < seg,
    ;
    assert((j + 1) * seg == j * seg + seg) by (nonlinear_arith);
    assert((j + 1) * seg <= k * seg) by (nonlinear_arith)
        requires
            j + 1 <= k,
            0 < seg,
    ;
    vstd::arithmetic::div_mod::lemma_fundamental_div_mod_converse(g, seg, j, g - j * seg);
}

/// The alternates of an item lie in their segments; the item's bucket is the one of its own
/// segment.
pub proof fn lemma_alternates<S: IndexScheme>(sch: S, g: u32, tag: u32)
    requires
        sch.ok(),
        g < sch.degree() * sch.segment(),
    ensures
        alternates(sch, g, tag).len() == sch.degree(),
        0 <= g as int / sch.segment() as int,
        (g as int / sch.segment() as int) < sch.degree(),
        alternates(sch, g, tag)[g as int / sch.segment() as int] == g,
        forall|j: int|
            0 <= j < sch.degree() ==> {
                &&& (#[trigger] alternates(sch, g, tag)[j]) < sch.degree() * sch.segment()
                &&& alternates(sch, g, tag)[j] as int / sch.segment() as int == j
                &&& alternates(sch, alternates(sch, g, tag)[j], tag) == alternates(sch, g, tag)
            },
{
    sch.lemma_shape();
    sch.lemma_alternates(g, tag);
    let seg = sch.segment() as int;
    let p = g as int / seg;
    vstd::arithmetic::div_mod::lemma_fundamental_div_mod(g as int, seg);
    vstd::arithmetic::div_mod::lemma_mod_bound(g as int, seg);
    vstd::arithmetic::div_mod::lemma_div_pos_is_pos(g as int, seg);
    assert(p * seg == seg * p) by (nonlinear_arith);
    assert(p < sch.degree()) by (nonlinear_arith)
        requires
            p * seg <= g,
            g < sch.degree() * seg,
            seg > 0,
    ;
    let alts = alternates(sch, g, tag);
    assert forall|j: int| 0 <= j < sch.degree() implies {
        &&& (#[trigger] alts[j]) < sch.degree() * sch.segment()
        &&& alts[j] as int / sch.segment() as int == j
        &&& alternates(sch, alts[j], tag) == alts
    } by {
        let x = sch.alternate(g, tag, j);
        assert(alts[j] == x);
        lemma_bucket_in_range(sch, x as int, j);
        assert(alternates(sch, x, tag) =~= alts) by {
            assert forall|i: int| 0 <= i < sch.degree() implies sch.alternate(x, tag, i)
                == sch.alternate(g, tag, i) by {
                assert(sch.alternate(sch.alternate(g, tag, j), tag, i) == sch.alternate(
                    g,
                    tag,
                    i,
                ));
            }
        }
    }
}

/// The candidates of a keyword lie in their segments, and are the alternates of each other.
pub proof fn lemma_candidates<S: IndexScheme>(sch: S, key: Seq<u8>, fp_bits: u32)
    requires
        sch.ok(),
        crate::hash::fp_bits_ok(fp_bits),
    ensures
        candidates(sch, key, fp_bits).len() == sch.degree(),
        forall|j: int|
            0 <= j < sch.degree() ==> {
                &&& (#[trigger] candidates(sch, key, fp_bits)[j]) < sch.degree() * sch.segment()
                &&& candidates(sch, key, fp_bits)[j] as int / sch.segment() as int == j
                &&& alternates(
                    sch,
                    candidates(sch, key, fp_bits)[j],
                    sch.tag_of(key, fp_bits),
                ) == candidates(sch, key, fp_bits)
            },
{
    sch.lemma_candidates(key, fp_bits);
    let tag = sch.tag_of(key, fp_bits);
    let cands = candidates(sch, key, fp_bits);
    assert forall|j: int| 0 <= j < sch.degree() implies {
        &&& (#[trigger] cands[j]) < sch.degree() * sch.segment()
        &&& cands[j] as int / sch.segment() as int == j
        &&& alternates(sch, cands[j], tag) == cands
    } by {
        let x = sch.index_of(key, fp_bits, j);
        assert(cands[j] == x);
        lemma_bucket_in_range(sch, x as int, j);
        assert(alternates(sch, x, tag) =~= cands) by {
            assert forall|i: int| 0 <= i < sch.degree() implies sch.alternate(x, tag, i)
                == sch.index_of(key, fp_bits, i) by {
                assert(sch.alternate(sch.index_of(key, fp_bits, j), tag, i) == sch.index_of(
                    key,
                    fp_bits,
                    i,
                ));
            }
        }
    }
}

/// An empty slot that is found is empty and lies in its bucket.
pub proof fn lemma_first_empty(cells: Seq<Cell>, b: int, g: int, s: int)
    requires
        0 <= s,
    ensures
        first_empty(cells, b, g, s) matches Some(t) ==> s <= t < b && cells[g * b + t] is None,
        first_empty(cells, b, g, s) is None ==> forall|t: int|
            s <= t < b ==> #[trigger] cells[g * b + t] is Some,
    decreases b - s,
{
    if s < b && cells[g * b + s] is Some {
        lemma_first_empty(cells, b, g, s + 1);
    }
}

/// A place that is found is empty and lies in one of the buckets; where none is found, the
/// buckets are full.
pub proof fn lemma_first_place<S: IndexScheme>(
    sch: S,
    cells: Seq<Cell>,
    b: int,
    buckets: Seq<u32>,
    skip: int,
    j: int,
)
    requires
        shaped(sch, b, cells),
        0 <= j,
        forall|i: int|
            0 <= i < buckets.len() ==> (#[trigger] buckets[i]) < sch.degree() * sch.segment(),
    ensures
        first_place(cells, b, buckets, skip, j) matches Some(y) ==> {
            &&& 0 <= y < cells.len()
            &&& cells[y] is None
            &&& exists|i: int|
                j <= i < buckets.len() && i != skip && (#[trigger] buckets[i]) == y / b
        },
        first_place(cells, b, buckets, skip, j) is None ==> forall|i: int|
            j <= i < buckets.len() && i != skip ==> is_full(cells, b, (#[trigger] buckets[i]) as int),
    decreases buckets.len() - j,
{
    if j < buckets.len() {
        lemma_first_empty(cells, b, buckets[j] as int, 0);
        if j != skip && first_empty(cells, b, buckets[j] as int, 0) is Some {
            let s = first_empty(cells, b, buckets[j] as int, 0)->0;
            lemma_slot(sch, b, cells, buckets[j] as int, s);
            assert(buckets[j] == (buckets[j] * b + s) / b);
        } else {
            lemma_first_place(sch, cells, b, buckets, skip, j + 1);
        }
    }
}

// ---------------------------------------------------------------- contents
/// An item: its candidate buckets, its fingerprint and its value.
pub type Item = (Seq<u32>, u32, Seq<u8>);

/// The item in a slot of bucket `g`.
pub open spec fn item_of<S: IndexScheme>(sch: S, g: u32, cell: Cell) -> Option<Item> {
    match cell {
        Some(e) => Some((alternates(sch, g, e.0), e.0, e.1)),
        None => None,
    }
}

/// The items of all slots.
pub open spec fn items<S: IndexScheme>(sch: S, b: int, cells: Seq<Cell>) -> Seq<Option<Item>> {
    Seq::new(cells.len(), |x: int| item_of(sch, (x / b) as u32, cells[x]))
}

/// The items of the map, regardless of where they lie; an empty slot counts as `None`.
pub open spec fn contents<S: IndexScheme>(sch: S, b: int, cells: Seq<Cell>) -> Multiset<
    Option<Item>,
> {
    items(sch, b, cells).to_multiset()
}

/// Writing a slot exchanges one item.
pub proof fn lemma_contents_update<S: IndexScheme>(
    sch: S,
    b: int,
    cells: Seq<Cell>,
    x: int,
    cell: Cell,
)
    requires
        0 <= x < cells.len(),
    ensures
        contents(sch, b, cells.update(x, cell)) == contents(sch, b, cells).remove(
            item_of(sch, (x / b) as u32, cells[x]),
        ).insert(item_of(sch, (x / b) as u32, cell)),
        contents(sch, b, cells).count(item_of(sch, (x / b) as u32, cells[x])) > 0,
{
    let s = items(sch, b, cells);
    let a = item_of(sch, (x / b) as u32, cell);
    assert(items(sch, b, cells.update(x, cell)) =~= s.update(x, a));
    assert(s.update(x, a) =~= s.remove(x).insert(x, a));
    vstd::seq_lib::to_multiset_remove(s, x);
    vstd::seq_lib::to_multiset_insert(s.remove(x), x, a);
    vstd::seq_lib::to_multiset_contains(s, s[x]);
    assert(s.contains(s[x]));
}

/// Kicks that place the last item put exactly the given item into an empty slot.
pub proof fn lemma_kicks_contents<S: IndexScheme>(
    sch: S,
    b: int,
    seed: Seq<u8>,
    cells: Seq<Cell>,
    touched: Seq<u32>,
    pos: nat,
    g: u32,
    tag: u32,
    value: Seq<u8>,
    n: nat,
)
    requires
        shaped(sch, b, cells),
        g < sch.degree() * sch.segment(),
        is_full(cells, b, g as int),
    ensures
        kicks(sch, b, seed, cells, touched, pos, g, tag, value, n).cells.len() == cells.len(),
        kicks(sch, b, seed, cells, touched, pos, g, tag, value, n).error is None ==> contents(
            sch,
            b,
            kicks(sch, b, seed, cells, touched, pos, g, tag, value, n).cells,
        ) == contents(sch, b, cells).remove(None).insert(
            Some((alternates(sch, g, tag), tag, value)),
        ),
    decreases n,
{
    if n > 0 {
        let out = kicks(sch, b, seed, cells, touched, pos, g, tag, value, n);
        let slot = prg::keystream_word(seed, pos) as int % b;
        let x = g * b + slot;
        lemma_slot(sch, b, cells, g as int, slot);
        assert(cells[x] is Some);
        let ev = cells[x]->0;
        let next = cells.update(x, Some((tag, value)));
        let seen = touched.push(g);
        let own = g as int / sch.segment() as int;
        let alts = alternates(sch, g, ev.0);
        lemma_alternates(sch, g, ev.0);
        lemma_contents_update(sch, b, cells, x, Some((tag, value)));
        lemma_first_place(sch, next, b, alts, own, 0);
        let c0 = contents(sch, b, cells);
        let c1 = contents(sch, b, next);
        let cur: Option<Item> = Some((alternates(sch, g, tag), tag, value));
        let old: Option<Item> = Some((alts, ev.0, ev.1));
        assert(c1 == c0.remove(old).insert(cur));
        match first_place(next, b, alts, own, 0) {
            Some(y) => {
                let i = choose|i: int|
                    0 <= i < alts.len() && i != own && (#[trigger] alts[i]) == y / b;
                assert(alternates(sch, alts[i], ev.0) == alts);
                lemma_contents_update(sch, b, next, y, Some(ev));
                assert(contents(sch, b, out.cells) =~= c0.remove(None).insert(cur));
            },
            None => {
                sch.lemma_shape();
                let i = prg::keystream_word(seed, step(pos)) as int % (sch.degree() - 1);
                let o = other_segment(i, own);
                assert(alternates(sch, alts[o], ev.0) == alts);
                assert(is_full(next, b, alts[o] as int));
                lemma_kicks_contents(
                    sch,
                    b,
                    seed,
                    next,
                    seen,
                    step(step(pos)),
                    alts[o],
                    ev.0,
                    ev.1,
                    (n - 1) as nat,
                );
                if out.error is None {
                    assert(contents(sch, b, out.cells) =~= c0.remove(None).insert(cur));
                }
            },
        }
    }
}

/// An insertion that succeeds fills one empty slot with the new item and keeps every other
/// item, wherever it now lies; one that fails changes nothing.
pub proof fn law_insertion_contents<S: IndexScheme>(
    sch: S,
    b: int,
    fp_bits: u32,
    value_len: u32,
    max_kicks: u32,
    seed: Seq<u8>,
    pos: nat,
    cells: Seq<Cell>,
    key: Seq<u8>,
    value: Seq<u8>,
)
    requires
        shaped(sch, b, cells),
        crate::hash::fp_bits_ok(fp_bits),
    ensures
        ({
            let out = insertion(
                sch,
                b,
                fp_bits,
                value_len,
                max_kicks,
                seed,
                pos,
                cells,
                key,
                value,
            );
            &&& out.error is Some ==> out.cells == cells
            &&& out.error is None ==> contents(sch, b, out.cells) == contents(
                sch,
                b,
                cells,
            ).remove(None).insert(
                Some((candidates(sch, key, fp_bits), sch.tag_of(key, fp_bits), value)),
            )
            &&& out.cells.len() == cells.len()
        }),
{
    let buckets = candidates(sch, key, fp_bits);
    let tag = sch.tag_of(key, fp_bits);
    sch.lemma_shape();
    lemma_candidates(sch, key, fp_bits);
    lemma_first_place(sch, cells, b, buckets, 4, 0);
    if value.len() == value_len && !has_pair(cells, b, buckets, tag, value) {
        match first_place(cells, b, buckets, 4, 0) {
            Some(y) => {
                let i = choose|i: int|
                    0 <= i < buckets.len() && i != 4 && (#[trigger] buckets[i]) == y / b;
                assert(alternates(sch, buckets[i], tag) == buckets);
                lemma_contents_update(sch, b, cells, y, Some((tag, value)));
            },
            None => {
                let start = prg::keystream_word(seed, pos) as int % sch.degree() as int;
                assert(alternates(sch, buckets[start], tag) == buckets);
                assert(is_full(cells, b, buckets[start] as int));
                lemma_kicks_contents(
                    sch,
                    b,
                    seed,
                    cells,
                    Seq::empty(),
                    step(pos),
                    buckets[start],
                    tag,
                    value,
                    max_kicks as nat,
                );
            },
        }
    }
}

/// An item of the map lies in one of its candidate buckets.
pub proof fn lemma_item_found<S: IndexScheme>(
    sch: S,
    b: int,
    cells: Seq<Cell>,
    buckets: Seq<u32>,
    tag: u32,
    value: Seq<u8>,
)
    requires
        shaped(sch, b, cells),
        contents(sch, b, cells).count(Some((buckets, tag, value))) > 0,
    ensures
        has_pair(cells, b, buckets, tag, value),
{
    let s = items(sch, b, cells);
    let item: Option<Item> = Some((buckets, tag, value));
    vstd::seq_lib::to_multiset_contains(s, item);
    let x = choose|x: int| 0 <= x < s.len() && s[x] == item;
    sch.lemma_shape();
    let g = x / b;
    let n = (sch.degree() * sch.segment()) as int;
    vstd::arithmetic::div_mod::lemma_fundamental_div_mod(x, b);
    vstd::arithmetic::div_mod::lemma_mod_bound(x, b);
    vstd::arithmetic::div_mod::lemma_div_pos_is_pos(x, b);
    assert(g * b == b * g) by (nonlinear_arith);
    assert(g < n) by (nonlinear_arith)
        requires
            g * b <= x,
            x < n * b,
            b > 0,
    ;
    lemma_alternates(sch, g as u32, tag);
    let p = g / sch.segment() as int;
    assert(buckets[p] == g);
    assert(cells[buckets[p] * b + x % b] == Some((tag, value)));
}

/// After a successful insertion, one of the key's candidate buckets holds the pair, and
/// every item that was held before still is in one of its own candidate buckets.
pub proof fn law_inserted_is_found<S: IndexScheme>(
    sch: S,
    b: int,
    fp_bits: u32,
    value_len: u32,
    max_kicks: u32,
    seed: Seq<u8>,
    pos: nat,
    cells: Seq<Cell>,
    key: Seq<u8>,
    value: Seq<u8>,
    other: Item,
)
    requires
        shaped(sch, b, cells),
        crate::hash::fp_bits_ok(fp_bits),
        insertion(
            sch,
            b,
            fp_bits,
            value_len,
            max_kicks,
            seed,
            pos,
            cells,
            key,
            value,
        ).error is None,
    ensures
        has_pair(
            insertion(
                sch,
                b,
                fp_bits,
                value_len,
                max_kicks,
                seed,
                pos,
                cells,
                key,
                value,
            ).cells,
            b,
            candidates(sch, key, fp_bits),
            sch.tag_of(key, fp_bits),
            value,
        ),
        contents(sch, b, cells).count(Some(other)) > 0 ==> has_pair(
            insertion(
                sch,
                b,
                fp_bits,
                value_len,
                max_kicks,
                seed,
                pos,
                cells,
                key,
                value,
            ).cells,
            b,
            other.0,
            other.1,
            other.2,
        ),
{
    law_insertion_contents(sch, b, fp_bits, value_len, max_kicks, seed, pos, cells, key, value);
    let out = insertion(
        sch,
        b,
        fp_bits,
        value_len,
        max_kicks,
        seed,
        pos,
        cells,
        key,
        value,
    );
    let buckets = candidates(sch, key, fp_bits);
    let tag = sch.tag_of(key, fp_bits);
    lemma_item_found(sch, b, out.cells, buckets, tag, value);
    if contents(sch, b, cells).count(Some(other)) > 0 {
        lemma_item_found(sch, b, out.cells, other.0, other.1, other.2);
    }
}

/// Room in one of the key's candidate buckets is enough for an insertion to succeed, for a
/// pair of the right length that is not held yet.
pub proof fn law_room_is_enough<S: IndexScheme>(
    sch: S,
    b: int,
    fp_bits: u32,
    value_len: u32,
    max_kicks: u32,
    seed: Seq<u8>,
    pos: nat,
    cells: Seq<Cell>,
    key: Seq<u8>,
    value: Seq<u8>,
    j: int,
    s: int,
)
    requires
        shaped(sch, b, cells),
        crate::hash::fp_bits_ok(fp_bits),
        value.len() == value_len,
        !has_pair(cells, b, candidates(sch, key, fp_bits), sch.tag_of(key, fp_bits), value),
        0 <= j < sch.degree(),
        0 <= s < b,
        cells[candidates(sch, key, fp_bits)[j] * b + s] is None,
    ensures
        insertion(
            sch,
            b,
            fp_bits,
            value_len,
            max_kicks,
            seed,
            pos,
            cells,
            key,
            value,
        ).error is None,
{
    let buckets = candidates(sch, key, fp_bits);
    sch.lemma_shape();
    lemma_candidates(sch, key, fp_bits);
    lemma_first_place(sch, cells, b, buckets, 4, 0);
    if first_place(cells, b, buckets, 4, 0) is None {
        assert(is_full(cells, b, buckets[j] as int));
    }
}

// ---------------------------------------------------------------- lookups
/// A fingerprint that is found lies where it was found.
pub proof fn lemma_first_tag(cells: Seq<Cell>, b: int, g: int, tag: u32, s: int)
    requires
        0 <= s,
    ensures
        first_tag(cells, b, g, tag, s) matches Some(t) ==> {
            &&& s <= t < b
            &&& cells[g * b + t] is Some
            &&& (cells[g * b + t]->0).0 == tag
        },
        first_tag(cells, b, g, tag, s) is None ==> forall|t: int|
            s <= t < b ==> !(#[trigger] cells[g * b + t] is Some && (cells[g * b + t]->0).0 == tag),
    decreases b - s,
{
    if s < b && !(cells[g * b + s] is Some && (cells[g * b + s]->0).0 == tag) {
        lemma_first_tag(cells, b, g, tag, s + 1);
    }
}

/// A slot that is found holds the fingerprint and lies in one of the buckets; where none is
/// found, none of the buckets holds it.
pub proof fn lemma_first_found<S: IndexScheme>(
    sch: S,
    cells: Seq<Cell>,
    b: int,
    buckets: Seq<u32>,
    tag: u32,
    j: int,
)
    requires
        shaped(sch, b, cells),
        0 <= j,
        forall|i: int|
            0 <= i < buckets.len() ==> (#[trigger] buckets[i]) < sch.degree() * sch.segment(),
    ensures
        first_found(cells, b, buckets, tag, j) matches Some(y) ==> {
            &&& 0 <= y < cells.len()
            &&& cells[y] is Some
            &&& (cells[y]->0).0 == tag
            &&& exists|i: int| j <= i < buckets.len() && (#[trigger] buckets[i]) == y / b
        },
        first_found(cells, b, buckets, tag, j) is None ==> forall|i: int, t: int|
            j <= i < buckets.len() && 0 <= t < b ==> !(#[trigger] cells[buckets[i] * b + t] is Some
                && (cells[buckets[i] * b + t]->0).0 == tag),
    decreases buckets.len() - j,
{
    if j < buckets.len() {
        lemma_first_tag(cells, b, buckets[j] as int, tag, 0);
        if first_tag(cells, b, buckets[j] as int, tag, 0) is Some {
            let s = first_tag(cells, b, buckets[j] as int, tag, 0)->0;
            lemma_slot(sch, b, cells, buckets[j] as int, s);
            assert(buckets[j] == (buckets[j] * b + s) / b);
        } else {
            lemma_first_found(sch, cells, b, buckets, tag, j + 1);
        }
    }
}

/// Writing the slot in which a key was found exchanges one of the items with the key's
/// candidates and fingerprint, and keeps every other item: with a value in place of the old
/// one, or with nothing.
pub proof fn law_found_slot_contents<S: IndexScheme>(
    sch: S,
    b: int,
    fp_bits: u32,
    cells: Seq<Cell>,
    key: Seq<u8>,
    new_value: Option<Seq<u8>>,
)
    requires
        shaped(sch, b, cells),
        crate::hash::fp_bits_ok(fp_bits),
    ensures
        ({
            let buckets = candidates(sch, key, fp_bits);
            let tag = sch.tag_of(key, fp_bits);
            first_found(cells, b, buckets, tag, 0) matches Some(y) ==> {
                let cell: Cell = match new_value {
                    Some(v) => Some((tag, v)),
                    None => None,
                };
                let item: Option<Item> = match new_value {
                    Some(v) => Some((buckets, tag, v)),
                    None => None,
                };
                let gone: Option<Item> = Some((buckets, tag, (cells[y]->0).1));
                &&& contents(sch, b, cells).count(gone) > 0
                &&& contents(sch, b, cells.update(y, cell)) == contents(sch, b, cells).remove(
                    gone,
                ).insert(item)
            }
        }),
{
    let buckets = candidates(sch, key, fp_bits);
    let tag = sch.tag_of(key, fp_bits);
    lemma_candidates(sch, key, fp_bits);
    lemma_first_found(sch, cells, b, buckets, tag, 0);
    if let Some(y) = first_found(cells, b, buckets, tag, 0) {
        let i = choose|i: int| 0 <= i < buckets.len() && (#[trigger] buckets[i]) == y / b;
        assert(alternates(sch, buckets[i], tag) == buckets);
        let cell: Cell = match new_value {
            Some(v) => Some((tag, v)),
            None => None,
        };
        lemma_contents_update(sch, b, cells, y, cell);
    }
}

/// A pair that is held is found: the key's fingerprint is in one of its candidate buckets.
pub proof fn law_held_is_found<S: IndexScheme>(
    sch: S,
    b: int,
    fp_bits: u32,
    cells: Seq<Cell>,
    key: Seq<u8>,
    value: Seq<u8>,
)
    requires
        shaped(sch, b, cells),
        crate::hash::fp_bits_ok(fp_bits),
        has_pair(cells, b, candidates(sch, key, fp_bits), sch.tag_of(key, fp_bits), value),
    ensures
        first_found(
            cells,
            b,
            candidates(sch, key, fp_bits),
            sch.tag_of(key, fp_bits),
            0,
        ) is Some,
{
    let buckets = candidates(sch, key, fp_bits);
    let tag = sch.tag_of(key, fp_bits);
    lemma_candidates(sch, key, fp_bits);
    lemma_first_found(sch, cells, b, buckets, tag, 0);
}

// ---------------------------------------------------------------- touched buckets
/// The slots of a bucket are the same.
pub open spec fn same_bucket(before: Seq<Cell>, after: Seq<Cell>, b: int, g: int) -> bool {
    forall|s: int| 0 <= s < b ==> #[trigger] after[g * b + s] == before[g * b + s]
}

/// Only touched buckets change.
pub open spec fn others_same(
    before: Seq<Cell>,
    after: Seq<Cell>,
    b: int,
    n: int,
    touched: Seq<u32>,
) -> bool {
    forall|g: u32|
        g < n && !(#[trigger] touched.contains(g)) ==> same_bucket(before, after, b, g as int)
}

/// Writing a slot changes its bucket only.
pub proof fn lemma_update_bucket<S: IndexScheme>(
    sch: S,
    b: int,
    cells: Seq<Cell>,
    y: int,
    cell: Cell,
    g: u32,
)
    requires
        shaped(sch, b, cells),
        0 <= y < cells.len(),
        g < sch.degree() * sch.segment(),
        y / b != g,
    ensures
        same_bucket(cells, cells.update(y, cell), b, g as int),
{
    assert forall|s: int| 0 <= s < b implies #[trigger] cells.update(y, cell)[g * b + s] == cells[g
        * b + s] by {
        lemma_slot(sch, b, cells, g as int, s);
    }
}

proof fn lemma_same_bucket_trans(c0: Seq<Cell>, c1: Seq<Cell>, c2: Seq<Cell>, b: int, g: int)
    requires
        same_bucket(c0, c1, b, g),
        same_bucket(c1, c2, b, g),
    ensures
        same_bucket(c0, c2, b, g),
{
    assert forall|s: int| 0 <= s < b implies #[trigger] c2[g * b + s] == c0[g * b + s] by {
        assert(c1[g * b + s] == c0[g * b + s]);
    }
}

/// Kicks change touched buckets only, and touched buckets are buckets of the map.
pub proof fn lemma_kicks_touched<S: IndexScheme>(
    sch: S,
    b: int,
    seed: Seq<u8>,
    cells: Seq<Cell>,
    touched: Seq<u32>,
    pos: nat,
    g: u32,
    tag: u32,
    value: Seq<u8>,
    n: nat,
)
    requires
        shaped(sch, b, cells),
        g < sch.degree() * sch.segment(),
        is_full(cells, b, g as int),
        forall|i: int|
            0 <= i < touched.len() ==> (#[trigger] touched[i]) < sch.degree() * sch.segment(),
    ensures
        ({
            let out = kicks(sch, b, seed, cells, touched, pos, g, tag, value, n);
            &&& forall|i: int|
                0 <= i < out.touched.len() ==> (#[trigger] out.touched[i]) < sch.degree()
                    * sch.segment()
            &&& forall|h: u32| touched.contains(h) ==> #[trigger] out.touched.contains(h)
            &&& others_same(
                cells,
                out.cells,
                b,
                (sch.degree() * sch.segment()) as int,
                out.touched,
            )
        }),
    decreases n,
{
    let out = kicks(sch, b, seed, cells, touched, pos, g, tag, value, n);
    let most = (sch.degree() * sch.segment()) as int;
    if n > 0 {
        let slot = prg::keystream_word(seed, pos) as int % b;
        let x = g * b + slot;
        lemma_slot(sch, b, cells, g as int, slot);
        assert(cells[x] is Some);
        let ev = cells[x]->0;
        let next = cells.update(x, Some((tag, value)));
        let seen = touched.push(g);
        let own = g as int / sch.segment() as int;
        let alts = alternates(sch, g, ev.0);
        lemma_alternates(sch, g, ev.0);
        lemma_first_place(sch, next, b, alts, own, 0);
        assert(seen[touched.len() as int] == g);
        assert forall|h: u32| touched.contains(h) implies #[trigger] seen.contains(h) by {
            let i = choose|i: int| 0 <= i < touched.len() && touched[i] == h;
            assert(seen[i] == h);
        }
        match first_place(next, b, alts, own, 0) {
            Some(y) => {
                let i = choose|i: int|
                    0 <= i < alts.len() && i != own && (#[trigger] alts[i]) == y / b;
                let e = (y / b) as u32;
                assert(e == alts[i]);
                assert(out.touched =~= seen.push(e));
                assert(out.touched[seen.len() as int] == e);
                assert forall|h: u32| seen.contains(h) implies #[trigger] out.touched.contains(
                    h,
                ) by {
                    let k = choose|k: int| 0 <= k < seen.len() && seen[k] == h;
                    assert(out.touched[k] == h);
                }
                assert(out.touched.contains(g));
                assert(out.touched.contains(e));
                assert forall|h: u32|
                    h < most && !(#[trigger] out.touched.contains(h)) implies same_bucket(
                    cells,
                    out.cells,
                    b,
                    h as int,
                ) by {
                    lemma_update_bucket(sch, b, cells, x, Some((tag, value)), h);
                    lemma_update_bucket(sch, b, next, y, Some(ev), h);
                    lemma_same_bucket_trans(cells, next, out.cells, b, h as int);
                }
            },
            None => {
                sch.lemma_shape();
                let i = prg::keystream_word(seed, step(pos)) as int % (sch.degree() - 1);
                let o = other_segment(i, own);
                assert(alternates(sch, alts[o], ev.0) == alts);
                assert(is_full(next, b, alts[o] as int));
                lemma_kicks_touched(
                    sch,
                    b,
                    seed,
                    next,
                    seen,
                    step(step(pos)),
                    alts[o],
                    ev.0,
                    ev.1,
                    (n - 1) as nat,
                );
                assert(seen.contains(g));
                assert(out.touched.contains(g));
                assert forall|h: u32|
                    h < most && !(#[trigger] out.touched.contains(h)) implies same_bucket(
                    cells,
                    out.cells,
                    b,
                    h as int,
                ) by {
                    lemma_update_bucket(sch, b, cells, x, Some((tag, value)), h);
                    lemma_same_bucket_trans(cells, next, out.cells, b, h as int);
                }
            },
        }
    }
}

/// An insertion changes touched buckets only.
pub proof fn law_insertion_touched<S: IndexScheme>(
    sch: S,
    b: int,
    fp_bits: u32,
    value_len: u32,
    max_kicks: u32,
    seed: Seq<u8>,
    pos: nat,
    cells: Seq<Cell>,
    key: Seq<u8>,
    value: Seq<u8>,
)
    requires
        shaped(sch, b, cells),
        crate::hash::fp_bits_ok(fp_bits),
    ensures
        ({
            let out = insertion(
                sch,
                b,
                fp_bits,
                value_len,
                max_kicks,
                seed,
                pos,
                cells,
                key,
                value,
            );
            &&& forall|i: int|
                0 <= i < out.touched.len() ==> (#[trigger] out.touched[i]) < sch.degree()
                    * sch.segment()
            &&& others_same(
                cells,
                out.cells,
                b,
                (sch.degree() * sch.segment()) as int,
                out.touched,
            )
        }),
{
    let buckets = candidates(sch, key, fp_bits);
    let tag = sch.tag_of(key, fp_bits);
    let most = (sch.degree() * sch.segment()) as int;
    let out = insertion(sch, b, fp_bits, value_len, max_kicks, seed, pos, cells, key, value);
    sch.lemma_shape();
    lemma_candidates(sch, key, fp_bits);
    lemma_first_place(sch, cells, b, buckets, 4, 0);
    if value.len() == value_len && !has_pair(cells, b, buckets, tag, value) {
        match first_place(cells, b, buckets, 4, 0) {
            Some(y) => {
                let i = choose|i: int|
                    0 <= i < buckets.len() && i != 4 && (#[trigger] buckets[i]) == y / b;
                assert(out.touched[0] == (y / b) as u32);
                assert(out.touched.contains((y / b) as u32));
                assert forall|h: u32|
                    h < most && !(#[trigger] out.touched.contains(h)) implies same_bucket(
                    cells,
                    out.cells,
                    b,
                    h as int,
                ) by {
                    lemma_update_bucket(sch, b, cells, y, Some((tag, value)), h);
                }
            },
            None => {
                let start = prg::keystream_word(seed, pos) as int % sch.degree() as int;
                assert(is_full(cells, b, buckets[start] as int));
                lemma_kicks_touched(
                    sch,
                    b,
                    seed,
                    cells,
                    Seq::empty(),
                    step(pos),
                    buckets[start],
                    tag,
                    value,
                    max_kicks as nat,
                );
            },
        }
    }
}

/// Every touched bucket is among those that are kept, and nothing else is.
pub proof fn lemma_last_touches(touched: Seq<u32>, n: int)
    requires
        0 <= n <= touched.len(),
    ensures
        forall|i: int|
            0 <= i < n ==> last_touches(touched, n).contains(#[trigger] touched[i])
                || touched.skip(n).contains(touched[i]),
        forall|k: int|
            0 <= k < last_touches(touched, n).len() ==> touched.contains(
                #[trigger] last_touches(touched, n)[k],
            ),
    decreases n,
{
    if n > 0 {
        let prev = last_touches(touched, n - 1);
        let all = last_touches(touched, n);
        let t = touched[n - 1];
        lemma_last_touches(touched, n - 1);
        assert(touched.skip(n - 1) =~= seq![t] + touched.skip(n));
        assert forall|i: int| 0 <= i < n implies all.contains(#[trigger] touched[i])
            || touched.skip(n).contains(touched[i]) by {
            if !touched.skip(n).contains(t) {
                assert(all[prev.len() as int] == t);
            }
            if i < n - 1 {
                if prev.contains(touched[i]) {
                    let k = choose|k: int| 0 <= k < prev.len() && prev[k] == touched[i];
                    assert(all[k] == touched[i]);
                } else {
                    let rest = touched.skip(n - 1);
                    let k = choose|k: int| 0 <= k < rest.len() && rest[k] == touched[i];
                    if k > 0 {
                        assert(touched.skip(n)[k - 1] == touched[i]);
                    }
                }
            }
        }
        assert forall|k: int| 0 <= k < all.len() implies touched.contains(#[trigger] all[k]) by {
            if k < prev.len() {
                assert(all[k] == prev[k]);
            } else {
                assert(touched[n - 1] == all[k]);
            }
        }
    }
}

} // verus!
