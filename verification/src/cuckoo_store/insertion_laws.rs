//! When an insertion succeeds, and where it puts the pair.
use vstd::prelude::*;

use crate::backend::prg;
use crate::cuckoo_store::model;
use crate::cuckoo_store::model::Cell;
use crate::cuckoo_store::MapError;
use crate::hash::IndexScheme;

verus! {

/// A map before an insertion, and the pair to be inserted: buckets of `b` slots, fingerprints
/// of `fp_bits` bits, values of `value_len` bytes, at most `max_kicks` evictions, and the key
/// stream of `seed` from `pos` on.
pub struct Attempt<S> {
    pub sch: S,
    pub b: int,
    pub fp_bits: u32,
    pub value_len: u32,
    pub max_kicks: u32,
    pub seed: Seq<u8>,
    pub pos: nat,
    pub cells: Seq<Cell>,
    pub key: Seq<u8>,
    pub value: Seq<u8>,
}

/// What the attempt comes to.
pub open spec fn outcome<S: IndexScheme>(a: Attempt<S>) -> model::Outcome {
    model::insertion(
        a.sch,
        a.b,
        a.fp_bits,
        a.value_len,
        a.max_kicks,
        a.seed,
        a.pos,
        a.cells,
        a.key,
        a.value,
    )
}

/// The map has all of its slots, and fingerprints have 1 to 32 bits.
pub open spec fn sound<S: IndexScheme>(a: Attempt<S>) -> bool {
    &&& a.sch.ok()
    &&& a.b > 0
    &&& a.cells.len() == a.sch.degree() * a.sch.segment() * a.b
    &&& 1 <= a.fp_bits <= 32
}

/// Slot `s` of the key's candidate bucket `j`.
pub open spec fn key_slot<S: IndexScheme>(a: Attempt<S>, j: int, s: int) -> int {
    a.sch.index_of(a.key, a.fp_bits, j) * a.b + s
}

/// One of the key's candidate buckets holds the pair already.
pub open spec fn already_held<S: IndexScheme>(a: Attempt<S>) -> bool {
    exists|j: int, s: int|
        0 <= j < a.sch.degree() && 0 <= s < a.b && #[trigger] a.cells[key_slot(a, j, s)] == Some(
            (a.sch.tag_of(a.key, a.fp_bits), a.value),
        )
}

/// One of the key's candidate buckets has an empty slot.
pub open spec fn has_room<S: IndexScheme>(a: Attempt<S>) -> bool {
    exists|j: int, s: int|
        0 <= j < a.sch.degree() && 0 <= s < a.b && #[trigger] a.cells[key_slot(a, j, s)] is None
}

proof fn lemma_terms<S: IndexScheme>(a: Attempt<S>)
    requires
        sound(a),
    ensures
        model::shaped(a.sch, a.b, a.cells),
        crate::hash::fp_bits_ok(a.fp_bits),
        2 <= a.sch.degree() <= 4,
        already_held(a) <==> model::has_pair(
            a.cells,
            a.b,
            model::candidates(a.sch, a.key, a.fp_bits),
            a.sch.tag_of(a.key, a.fp_bits),
            a.value,
        ),
        has_room(a) <==> model::first_place(
            a.cells,
            a.b,
            model::candidates(a.sch, a.key, a.fp_bits),
            4,
            0,
        ) is Some,
{
    let buckets = model::candidates(a.sch, a.key, a.fp_bits);
    let tag = a.sch.tag_of(a.key, a.fp_bits);
    a.sch.lemma_shape();
    model::lemma_candidates(a.sch, a.key, a.fp_bits);
    model::lemma_first_place(a.sch, a.cells, a.b, buckets, 4, 0);
    if already_held(a) {
        let (j, s) = choose|j: int, s: int|
            0 <= j < a.sch.degree() && 0 <= s < a.b && #[trigger] a.cells[key_slot(a, j, s)]
                == Some((tag, a.value));
        assert(buckets[j] * a.b + s == key_slot(a, j, s));
        assert(a.cells[buckets[j] * a.b + s] == Some((tag, a.value)));
    }
    if model::has_pair(a.cells, a.b, buckets, tag, a.value) {
        let (j, s) = choose|j: int, s: int|
            0 <= j < buckets.len() && 0 <= s < a.b && #[trigger] a.cells[buckets[j] * a.b + s]
                == Some((tag, a.value));
        assert(a.cells[key_slot(a, j, s)] == Some((tag, a.value)));
    }
    if has_room(a) {
        let (j, s) = choose|j: int, s: int|
            0 <= j < a.sch.degree() && 0 <= s < a.b && #[trigger] a.cells[key_slot(a, j, s)] is None;
        if model::first_place(a.cells, a.b, buckets, 4, 0) is None {
            assert(model::is_full(a.cells, a.b, buckets[j] as int));
            assert(a.cells[buckets[j] * a.b + s] is Some);
        }
    }
    if let Some(y) = model::first_place(a.cells, a.b, buckets, 4, 0) {
        let i = choose|i: int|
            0 <= i < buckets.len() && i != 4 && (#[trigger] buckets[i]) == y / a.b;
        let s = y % a.b;
        vstd::arithmetic::div_mod::lemma_fundamental_div_mod(y, a.b);
        vstd::arithmetic::div_mod::lemma_mod_bound(y, a.b);
        assert(a.b * (y / a.b) == buckets[i] * a.b) by (nonlinear_arith)
            requires
                buckets[i] == y / a.b,
        ;
        assert(a.cells[key_slot(a, i, s)] is None);
    }
}

/// A value of another length is refused as such, whatever the map holds; a pair of the right
/// length is refused as a duplicate where one of its candidate buckets holds it, and only
/// there; and any other pair is refused, if at all, because the map is full.
pub proof fn law_insertion_errors<S: IndexScheme>(a: Attempt<S>)
    requires
        sound(a),
    ensures
        a.value.len() != a.value_len <==> outcome(a).error == Some(MapError::ValueLength),
        a.value.len() == a.value_len && already_held(a) <==> outcome(a).error == Some(
            MapError::Duplicate,
        ),
        a.value.len() == a.value_len && !already_held(a) ==> outcome(a).error is None || outcome(
            a,
        ).error == Some(MapError::TableFull),
{
    lemma_terms(a);
    if a.value.len() == a.value_len && !already_held(a) && !has_room(a) {
        let buckets = model::candidates(a.sch, a.key, a.fp_bits);
        let start = prg::keystream_word(a.seed, a.pos) as int % a.sch.degree() as int;
        lemma_kicks_error(
            a.sch,
            a.b,
            a.seed,
            a.cells,
            Seq::empty(),
            model::step(a.pos),
            buckets[start],
            a.sch.tag_of(a.key, a.fp_bits),
            a.value,
            a.max_kicks as nat,
        );
    }
}

proof fn lemma_kicks_error<S: IndexScheme>(
    sch: S,
    b: int,
    seed: Seq<u8>,
    cells: Seq<Cell>,
    touched: Seq<u32>,
    pos: nat,
    g: u32,
    tag: u32,
    value: Seq<u8>,
    n: nat,
)
    ensures
        ({
            let e = model::kicks(sch, b, seed, cells, touched, pos, g, tag, value, n).error;
            e is None || e == Some(MapError::TableFull)
        }),
    decreases n,
{
    if n > 0 {
        let slot = prg::keystream_word(seed, pos) as int % b;
        let out = cells[g * b + slot]->0;
        let next = cells.update(g * b + slot, Some((tag, value)));
        let seen = touched.push(g);
        let own = g as int / sch.segment() as int;
        let alts = model::alternates(sch, g, out.0);
        if model::first_place(next, b, alts, own, 0) is None {
            let i = prg::keystream_word(seed, model::step(pos)) as int % (sch.degree() - 1);
            lemma_kicks_error(
                sch,
                b,
                seed,
                next,
                seen,
                model::step(model::step(pos)),
                alts[model::other_segment(i, own)],
                out.0,
                out.1,
                (n - 1) as nat,
            );
        }
    }
}

/// The first empty slot of the key's candidate buckets, in the order of the segments and of
/// the slots, takes the pair, and nothing else changes: no word of the key stream is used and
/// one bucket is touched.
pub proof fn law_pair_takes_first_empty_slot<S: IndexScheme>(a: Attempt<S>, j: int, s: int)
    requires
        sound(a),
        a.value.len() == a.value_len,
        !already_held(a),
        0 <= j < a.sch.degree(),
        0 <= s < a.b,
        a.cells[key_slot(a, j, s)] is None,
        forall|i: int, t: int|
            0 <= i < j && 0 <= t < a.b ==> #[trigger] a.cells[key_slot(a, i, t)] is Some,
        forall|t: int| 0 <= t < s ==> #[trigger] a.cells[key_slot(a, j, t)] is Some,
    ensures
        outcome(a).error is None,
        outcome(a).cells == a.cells.update(
            key_slot(a, j, s),
            Some((a.sch.tag_of(a.key, a.fp_bits), a.value)),
        ),
        outcome(a).pos == a.pos,
        outcome(a).touched == seq![a.sch.index_of(a.key, a.fp_bits, j)],
{
    let buckets = model::candidates(a.sch, a.key, a.fp_bits);
    lemma_terms(a);
    model::lemma_candidates(a.sch, a.key, a.fp_bits);
    lemma_place_at(a, j, s, 0);
    model::lemma_slot(a.sch, a.b, a.cells, buckets[j] as int, s);
}

proof fn lemma_place_at<S: IndexScheme>(a: Attempt<S>, j: int, s: int, i: int)
    requires
        0 <= i <= j < a.sch.degree() <= 4,
        0 <= s < a.b,
        a.cells[key_slot(a, j, s)] is None,
        forall|k: int, t: int|
            0 <= k < j && 0 <= t < a.b ==> #[trigger] a.cells[key_slot(a, k, t)] is Some,
        forall|t: int| 0 <= t < s ==> #[trigger] a.cells[key_slot(a, j, t)] is Some,
    ensures
        model::first_place(a.cells, a.b, model::candidates(a.sch, a.key, a.fp_bits), 4, i)
            == Some(key_slot(a, j, s)),
    decreases j - i,
{
    let buckets = model::candidates(a.sch, a.key, a.fp_bits);
    if i < j {
        assert forall|t: int| 0 <= t < a.b implies #[trigger] a.cells[buckets[i] * a.b + t] is Some by {
            assert(a.cells[key_slot(a, i, t)] is Some);
        }
        lemma_none_empty(a.cells, a.b, buckets[i] as int, 0);
        lemma_place_at(a, j, s, i + 1);
    } else {
        assert forall|t: int| 0 <= t < s implies #[trigger] a.cells[buckets[j] * a.b + t] is Some by {
            assert(a.cells[key_slot(a, j, t)] is Some);
        }
        lemma_empty_at(a.cells, a.b, buckets[j] as int, s, 0);
    }
}

proof fn lemma_none_empty(cells: Seq<Cell>, b: int, g: int, s: int)
    requires
        0 <= s,
        forall|t: int| 0 <= t < b ==> #[trigger] cells[g * b + t] is Some,
    ensures
        model::first_empty(cells, b, g, s) is None,
    decreases b - s,
{
    if s < b {
        lemma_none_empty(cells, b, g, s + 1);
    }
}

proof fn lemma_empty_at(cells: Seq<Cell>, b: int, g: int, s: int, t: int)
    requires
        0 <= t <= s < b,
        cells[g * b + s] is None,
        forall|u: int| 0 <= u < s ==> #[trigger] cells[g * b + u] is Some,
    ensures
        model::first_empty(cells, b, g, t) == Some(s),
    decreases s - t,
{
    if t < s {
        assert(cells[g * b + t] is Some);
        lemma_empty_at(cells, b, g, s, t + 1);
    }
}

// ---------------------------------------------------------------- chains of evictions
/// One link of a chain of evictions: the slots before it, the bucket in which it evicts, and
/// the pair that takes the evicted one's slot.
pub struct Link {
    pub cells: Seq<Cell>,
    pub bucket: u32,
    pub tag: u32,
    pub value: Seq<u8>,
}

/// Word `n` of the key stream from the attempt's place on, which starts again at its end.
pub open spec fn word<S>(a: Attempt<S>, n: int) -> int {
    prg::keystream_word(a.seed, ((a.pos + n) % 0x10_0000_0000_0000_0000) as nat) as int
}

/// The slot in which link `i` evicts: the stream gives one word for the first bucket and two
/// words per link, the first of which picks the slot.
pub open spec fn evicting_slot<S>(a: Attempt<S>, chain: Seq<Link>, i: int) -> int {
    chain[i].bucket * a.b + word(a, 1 + 2 * i) % a.b
}

/// The slots after link `i`.
pub open spec fn after_link<S>(a: Attempt<S>, chain: Seq<Link>, i: int) -> Seq<Cell> {
    chain[i].cells.update(
        evicting_slot(a, chain, i),
        Some((chain[i].tag, chain[i].value)),
    )
}

/// The pair that link `i` evicts.
pub open spec fn evicted<S>(a: Attempt<S>, chain: Seq<Link>, i: int) -> (u32, Seq<u8>) {
    chain[i].cells[evicting_slot(a, chain, i)]->0
}

/// The segment of link `i`'s bucket.
pub open spec fn link_segment<S: IndexScheme>(a: Attempt<S>, chain: Seq<Link>, i: int) -> int {
    chain[i].bucket as int / a.sch.segment() as int
}

/// The segment in which the next link evicts: among the others, the one that the second word
/// of link `i` picks.
pub open spec fn next_segment<S: IndexScheme>(a: Attempt<S>, chain: Seq<Link>, i: int) -> int {
    let pick = word(a, 2 + 2 * i) % (a.sch.degree() - 1);
    if pick < link_segment(a, chain, i) {
        pick
    } else {
        pick + 1
    }
}

/// A chain of evictions that the key stream picks: it starts with the pair in one of the
/// key's candidate buckets, and every evicted pair goes on to evict in another of its own.
pub open spec fn is_chain<S: IndexScheme>(a: Attempt<S>, chain: Seq<Link>) -> bool {
    &&& chain.len() > 0
    &&& chain[0].cells == a.cells
    &&& chain[0].bucket == a.sch.index_of(a.key, a.fp_bits, word(a, 0) % a.sch.degree() as int)
    &&& chain[0].tag == a.sch.tag_of(a.key, a.fp_bits)
    &&& chain[0].value == a.value
    &&& forall|i: int|
        0 <= i < chain.len() - 1 ==> {
            &&& #[trigger] chain[i + 1].cells == after_link(a, chain, i)
            &&& chain[i + 1].tag == evicted(a, chain, i).0
            &&& chain[i + 1].value == evicted(a, chain, i).1
            &&& chain[i + 1].bucket == a.sch.alternate(
                chain[i].bucket,
                evicted(a, chain, i).0,
                next_segment(a, chain, i),
            )
        }
}

/// The pair that link `i` evicts has an empty slot in another of its candidate buckets.
pub open spec fn finds_room<S: IndexScheme>(a: Attempt<S>, chain: Seq<Link>, i: int) -> bool {
    exists|j: int, s: int|
        0 <= j < a.sch.degree() && j != link_segment(a, chain, i) && 0 <= s < a.b
            && #[trigger] after_link(a, chain, i)[a.sch.alternate(
            chain[i].bucket,
            evicted(a, chain, i).0,
            j,
        ) * a.b + s] is None
}

/// Where the stream of the chain stands before link `i`.
proof fn lemma_stream<S>(a: Attempt<S>, i: int, p: nat)
    requires
        0 <= i,
        p == (a.pos + 1 + 2 * i) % 0x10_0000_0000_0000_0000,
    ensures
        prg::keystream_word(a.seed, p) == word(a, 1 + 2 * i),
        prg::keystream_word(a.seed, model::step(p)) == word(a, 2 + 2 * i),
        model::step(model::step(p)) == (a.pos + 1 + 2 * (i + 1)) % 0x10_0000_0000_0000_0000,
{
    let m = 0x10_0000_0000_0000_0000int;
    vstd::arithmetic::div_mod::lemma_add_mod_noop(a.pos + 1 + 2 * i, 1, m);
    vstd::arithmetic::div_mod::lemma_add_mod_noop(a.pos + 2 + 2 * i, 1, m);
    vstd::arithmetic::div_mod::lemma_mod_twice(a.pos + 1 + 2 * i, m);
    vstd::arithmetic::div_mod::lemma_mod_twice(a.pos + 2 + 2 * i, m);
    assert(((a.pos + 1 + 2 * i) % m + 1) % m == (a.pos + 2 + 2 * i) % m);
    assert(((a.pos + 2 + 2 * i) % m + 1) % m == (a.pos + 3 + 2 * i) % m);
}

/// A link evicts in a slot of the map.
proof fn lemma_evicting_slot<S: IndexScheme>(a: Attempt<S>, chain: Seq<Link>, i: int)
    requires
        a.sch.ok(),
        a.b > 0,
        chain[i].bucket < a.sch.degree() * a.sch.segment(),
        chain[i].cells.len() == a.sch.degree() * a.sch.segment() * a.b,
    ensures
        0 <= evicting_slot(a, chain, i) < chain[i].cells.len(),
        after_link(a, chain, i).len() == chain[i].cells.len(),
{
    let s = word(a, 1 + 2 * i) % a.b;
    vstd::arithmetic::div_mod::lemma_mod_bound(word(a, 1 + 2 * i), a.b);
    model::lemma_slot(a.sch, a.b, chain[i].cells, chain[i].bucket as int, s);
}

/// A pair that a link evicts and that has room elsewhere is placed there.
proof fn lemma_room_places<S: IndexScheme>(a: Attempt<S>, chain: Seq<Link>, i: int)
    requires
        a.sch.ok(),
        a.b > 0,
        0 <= i < chain.len(),
        chain[i].bucket < a.sch.degree() * a.sch.segment(),
        chain[i].cells.len() == a.sch.degree() * a.sch.segment() * a.b,
    ensures
        finds_room(a, chain, i) <==> model::first_place(
            after_link(a, chain, i),
            a.b,
            model::alternates(a.sch, chain[i].bucket, evicted(a, chain, i).0),
            link_segment(a, chain, i),
            0,
        ) is Some,
{
    let g = chain[i].bucket;
    let out = evicted(a, chain, i);
    let next = after_link(a, chain, i);
    let own = link_segment(a, chain, i);
    let alts = model::alternates(a.sch, g, out.0);
    lemma_evicting_slot(a, chain, i);
    model::lemma_alternates(a.sch, g, out.0);
    model::lemma_first_place(a.sch, next, a.b, alts, own, 0);
    if finds_room(a, chain, i) {
        let (j, s) = choose|j: int, s: int|
            0 <= j < a.sch.degree() && j != own && 0 <= s < a.b
                && #[trigger] next[a.sch.alternate(g, out.0, j) * a.b + s] is None;
        if model::first_place(next, a.b, alts, own, 0) is None {
            assert(model::is_full(next, a.b, alts[j] as int));
            assert(next[alts[j] * a.b + s] is Some);
        }
    }
    if let Some(y) = model::first_place(next, a.b, alts, own, 0) {
        let j = choose|j: int|
            0 <= j < alts.len() && j != own && (#[trigger] alts[j]) == y / a.b;
        let s = y % a.b;
        vstd::arithmetic::div_mod::lemma_fundamental_div_mod(y, a.b);
        vstd::arithmetic::div_mod::lemma_mod_bound(y, a.b);
        assert(a.b * (y / a.b) == alts[j] * a.b) by (nonlinear_arith)
            requires
                alts[j] == y / a.b,
        ;
        assert(next[a.sch.alternate(g, out.0, j) * a.b + s] is None);
    }
}

/// The buckets of a chain are buckets of the map.
proof fn lemma_chain_shape<S: IndexScheme>(a: Attempt<S>, chain: Seq<Link>, i: int)
    requires
        sound(a),
        is_chain(a, chain),
        0 <= i < chain.len(),
    ensures
        chain[i].bucket < a.sch.degree() * a.sch.segment(),
        chain[i].cells.len() == a.cells.len(),
    decreases i,
{
    a.sch.lemma_shape();
    let k = a.sch.degree() as int;
    if i == 0 {
        let start = word(a, 0) % k;
        vstd::arithmetic::div_mod::lemma_mod_bound(word(a, 0), k);
        model::lemma_candidates(a.sch, a.key, a.fp_bits);
        assert(model::candidates(a.sch, a.key, a.fp_bits)[start] == chain[0].bucket);
    } else {
        lemma_chain_shape(a, chain, i - 1);
        let out = evicted(a, chain, i - 1);
        let g = chain[i - 1].bucket;
        assert(chain[(i - 1) + 1].cells == after_link(a, chain, i - 1));
        lemma_evicting_slot(a, chain, i - 1);
        model::lemma_alternates(a.sch, g, out.0);
        let o = next_segment(a, chain, i - 1);
        vstd::arithmetic::div_mod::lemma_mod_bound(word(a, 2 + 2 * (i - 1)), k - 1);
        assert(model::alternates(a.sch, g, out.0)[o] == chain[i].bucket);
    }
}

/// Kicks follow the chain.
proof fn lemma_kicks_follow<S: IndexScheme>(
    a: Attempt<S>,
    chain: Seq<Link>,
    i: int,
    touched: Seq<u32>,
    pos: nat,
    n: nat,
)
    requires
        sound(a),
        is_chain(a, chain),
        0 <= i < chain.len(),
        finds_room(a, chain, chain.len() - 1),
        n >= chain.len() - i,
        pos == (a.pos + 1 + 2 * i) % 0x10_0000_0000_0000_0000,
    ensures
        model::kicks(
            a.sch,
            a.b,
            a.seed,
            chain[i].cells,
            touched,
            pos,
            chain[i].bucket,
            chain[i].tag,
            chain[i].value,
            n,
        ).error is None,
    decreases chain.len() - i,
{
    let g = chain[i].bucket;
    let seen = touched.push(g);
    lemma_chain_shape(a, chain, i);
    lemma_stream(a, i, pos);
    lemma_room_places(a, chain, i);
    let next = after_link(a, chain, i);
    let out = evicted(a, chain, i);
    let own = link_segment(a, chain, i);
    let alts = model::alternates(a.sch, g, out.0);
    if model::first_place(next, a.b, alts, own, 0) is None {
        assert(i < chain.len() - 1);
        assert(chain[i + 1].cells == next);
        model::lemma_alternates(a.sch, g, out.0);
        a.sch.lemma_shape();
        vstd::arithmetic::div_mod::lemma_mod_bound(word(a, 2 + 2 * i), a.sch.degree() - 1);
        lemma_kicks_follow(
            a,
            chain,
            i + 1,
            seen,
            model::step(model::step(pos)),
            (n - 1) as nat,
        );
    }
}

/// As long as the kicks last: if the chain of evictions that the key stream picks comes,
/// within `max_kicks` evictions, to a pair that has an empty slot in another of its candidate
/// buckets, the insertion succeeds.
pub proof fn law_chain_with_room_succeeds<S: IndexScheme>(a: Attempt<S>, chain: Seq<Link>)
    requires
        sound(a),
        a.value.len() == a.value_len,
        !already_held(a),
        is_chain(a, chain),
        chain.len() <= a.max_kicks,
        finds_room(a, chain, chain.len() - 1),
        a.pos < 0x10_0000_0000_0000_0000,
    ensures
        outcome(a).error is None,
{
    lemma_terms(a);
    if !has_room(a) {
        let k = a.sch.degree() as int;
        let start = word(a, 0) % k;
        vstd::arithmetic::div_mod::lemma_small_mod(a.pos, 0x10_0000_0000_0000_0000);
        vstd::arithmetic::div_mod::lemma_mod_bound(word(a, 0), k);
        let buckets = model::candidates(a.sch, a.key, a.fp_bits);
        assert(buckets[start] == chain[0].bucket);
        lemma_kicks_follow(
            a,
            chain,
            0,
            Seq::empty(),
            model::step(a.pos),
            a.max_kicks as nat,
        );
    }
}

/// A chain goes on with what its last link evicts.
proof fn lemma_chain_extends<S: IndexScheme>(a: Attempt<S>, chain: Seq<Link>, link: Link)
    requires
        is_chain(a, chain),
        link.cells == after_link(a, chain, chain.len() - 1),
        link.tag == evicted(a, chain, chain.len() - 1).0,
        link.value == evicted(a, chain, chain.len() - 1).1,
        link.bucket == a.sch.alternate(
            chain.last().bucket,
            link.tag,
            next_segment(a, chain, chain.len() - 1),
        ),
        forall|i: int| 0 <= i < chain.len() ==> !#[trigger] finds_room(a, chain, i),
    ensures
        is_chain(a, chain.push(link)),
        forall|i: int| 0 <= i < chain.len() ==> !#[trigger] finds_room(a, chain.push(link), i),
{
    let more = chain.push(link);
        assert forall|k: int| 0 <= k < more.len() - 1 implies {
            &&& #[trigger] more[k + 1].cells == after_link(a, more, k)
            &&& more[k + 1].tag == evicted(a, more, k).0
            &&& more[k + 1].value == evicted(a, more, k).1
            &&& more[k + 1].bucket == a.sch.alternate(
                more[k].bucket,
                evicted(a, more, k).0,
                next_segment(a, more, k),
            )
        } by {
            assert(more[k] == chain[k]);
            if k < chain.len() - 1 {
                assert(more[k + 1] == chain[k + 1]);
                assert(chain[k + 1].cells == after_link(a, chain, k));
            }
        }
        assert forall|k: int| 0 <= k < more.len() - 1 implies !#[trigger] finds_room(
            a,
            more,
            k,
        ) by {
            assert(more[k] == chain[k]);
            lemma_room_local(a, more, chain, k);
            assert(!finds_room(a, chain, k));
        }
}

/// The links that the kicks from link `i` on make.
proof fn lemma_kicks_make_chain<S: IndexScheme>(
    a: Attempt<S>,
    chain: Seq<Link>,
    touched: Seq<u32>,
    pos: nat,
    n: nat,
) -> (whole: Seq<Link>)
    requires
        sound(a),
        is_chain(a, chain),
        forall|i: int| 0 <= i < chain.len() - 1 ==> !#[trigger] finds_room(a, chain, i),
        n > 0,
        pos == (a.pos + 1 + 2 * (chain.len() - 1)) % 0x10_0000_0000_0000_0000,
        model::kicks(
            a.sch,
            a.b,
            a.seed,
            chain.last().cells,
            touched,
            pos,
            chain.last().bucket,
            chain.last().tag,
            chain.last().value,
            n,
        ).error is Some,
    ensures
        is_chain(a, whole),
        whole.len() == chain.len() + n - 1,
        forall|i: int| 0 <= i < whole.len() ==> !#[trigger] finds_room(a, whole, i),
        model::kicks(
            a.sch,
            a.b,
            a.seed,
            chain.last().cells,
            touched,
            pos,
            chain.last().bucket,
            chain.last().tag,
            chain.last().value,
            n,
        ).pos == (a.pos + 1 + 2 * whole.len()) % 0x10_0000_0000_0000_0000,
    decreases n,
{
    let i = chain.len() - 1;
    let g = chain[i].bucket;
    lemma_chain_shape(a, chain, i);
    lemma_stream(a, i, pos);
    lemma_room_places(a, chain, i);
    let next = after_link(a, chain, i);
    let out = evicted(a, chain, i);
    let alts = model::alternates(a.sch, g, out.0);
    a.sch.lemma_shape();
    model::lemma_alternates(a.sch, g, out.0);
    vstd::arithmetic::div_mod::lemma_mod_bound(word(a, 2 + 2 * i), a.sch.degree() - 1);
    assert(!finds_room(a, chain, i));
    if n == 1 {
        reveal_with_fuel(model::kicks, 2);
        chain
    } else {
        let o = next_segment(a, chain, i);
        let link = Link { cells: next, bucket: alts[o], tag: out.0, value: out.1 };
        let more = chain.push(link);
        lemma_chain_extends(a, chain, link);
        lemma_kicks_make_chain(
            a,
            more,
            touched.push(g),
            model::step(model::step(pos)),
            (n - 1) as nat,
        )
    }
}

proof fn lemma_room_local<S: IndexScheme>(a: Attempt<S>, x: Seq<Link>, y: Seq<Link>, i: int)
    requires
        x[i] == y[i],
    ensures
        finds_room(a, x, i) == finds_room(a, y, i),
{
    assert(after_link(a, x, i) == after_link(a, y, i));
    if finds_room(a, x, i) {
        let (j, s) = choose|j: int, s: int|
            0 <= j < a.sch.degree() && j != link_segment(a, x, i) && 0 <= s < a.b
                && #[trigger] after_link(a, x, i)[a.sch.alternate(
                x[i].bucket,
                evicted(a, x, i).0,
                j,
            ) * a.b + s] is None;
        assert(after_link(a, y, i)[a.sch.alternate(y[i].bucket, evicted(a, y, i).0, j) * a.b
            + s] is None);
    }
    if finds_room(a, y, i) {
        let (j, s) = choose|j: int, s: int|
            0 <= j < a.sch.degree() && j != link_segment(a, y, i) && 0 <= s < a.b
                && #[trigger] after_link(a, y, i)[a.sch.alternate(
                y[i].bucket,
                evicted(a, y, i).0,
                j,
            ) * a.b + s] is None;
        assert(after_link(a, x, i)[a.sch.alternate(x[i].bucket, evicted(a, x, i).0, j) * a.b
            + s] is None);
    }
}

/// The map counts as full only when the kicks are exhausted: the key's candidate buckets are
/// full, `max_kicks` evictions were made, none of the evicted pairs had room in another of
/// its buckets, and the key stream has moved on by one word and two words per eviction.
pub proof fn law_full_means_kicks_exhausted<S: IndexScheme>(a: Attempt<S>)
    requires
        sound(a),
        a.pos < 0x10_0000_0000_0000_0000,
        outcome(a).error == Some(MapError::TableFull),
    ensures
        a.value.len() == a.value_len,
        !already_held(a),
        !has_room(a),
        outcome(a).cells == a.cells,
        outcome(a).pos == (a.pos + 1 + 2 * a.max_kicks) % 0x10_0000_0000_0000_0000,
        a.max_kicks > 0 ==> exists|chain: Seq<Link>|
            #[trigger] is_chain(a, chain) && chain.len() == a.max_kicks && forall|i: int|
                0 <= i < chain.len() ==> !#[trigger] finds_room(a, chain, i),
{
    lemma_terms(a);
    law_insertion_errors(a);
    let k = a.sch.degree() as int;
    let start = word(a, 0) % k;
    vstd::arithmetic::div_mod::lemma_small_mod(a.pos, 0x10_0000_0000_0000_0000);
    vstd::arithmetic::div_mod::lemma_mod_bound(word(a, 0), k);
    let buckets = model::candidates(a.sch, a.key, a.fp_bits);
    let tag = a.sch.tag_of(a.key, a.fp_bits);
    if a.max_kicks > 0 {
        let first = seq![
            Link { cells: a.cells, bucket: buckets[start], tag, value: a.value },
        ];
        assert(is_chain(a, first));
        let whole = lemma_kicks_make_chain(
            a,
            first,
            Seq::empty(),
            model::step(a.pos),
            a.max_kicks as nat,
        );
        assert(is_chain(a, whole) && whole.len() == a.max_kicks);
    }
}

/// Slot `s` of the bucket in segment `j` is the first empty one that the pair evicted by link
/// `i` finds in its other candidate buckets, in the order of the segments and of the slots.
pub open spec fn is_first_room<S: IndexScheme>(
    a: Attempt<S>,
    chain: Seq<Link>,
    i: int,
    j: int,
    s: int,
) -> bool {
    let own = link_segment(a, chain, i);
    let cells = after_link(a, chain, i);
    let tag = evicted(a, chain, i).0;
    let g = chain[i].bucket;
    &&& 0 <= j < a.sch.degree()
    &&& j != own
    &&& 0 <= s < a.b
    &&& cells[a.sch.alternate(g, tag, j) * a.b + s] is None
    &&& forall|k: int, t: int|
        0 <= k < j && k != own && 0 <= t < a.b ==> #[trigger] cells[a.sch.alternate(g, tag, k)
            * a.b + t] is Some
    &&& forall|t: int|
        0 <= t < s ==> #[trigger] cells[a.sch.alternate(g, tag, j) * a.b + t] is Some
}

proof fn lemma_room_at<S: IndexScheme>(
    a: Attempt<S>,
    chain: Seq<Link>,
    i: int,
    j: int,
    s: int,
    from: int,
)
    requires
        is_first_room(a, chain, i, j, s),
        0 <= from <= j,
    ensures
        model::first_place(
            after_link(a, chain, i),
            a.b,
            model::alternates(a.sch, chain[i].bucket, evicted(a, chain, i).0),
            link_segment(a, chain, i),
            from,
        ) == Some(a.sch.alternate(chain[i].bucket, evicted(a, chain, i).0, j) * a.b + s),
    decreases j - from,
{
    let own = link_segment(a, chain, i);
    let cells = after_link(a, chain, i);
    let tag = evicted(a, chain, i).0;
    let g = chain[i].bucket;
    let alts = model::alternates(a.sch, g, tag);
    if from < j {
        if from != own {
            assert forall|t: int| 0 <= t < a.b implies #[trigger] cells[alts[from] * a.b + t] is Some by {
                assert(cells[a.sch.alternate(g, tag, from) * a.b + t] is Some);
            }
            lemma_none_empty(cells, a.b, alts[from] as int, 0);
        }
        lemma_room_at(a, chain, i, j, s, from + 1);
    } else {
        assert forall|t: int| 0 <= t < s implies #[trigger] cells[alts[j] * a.b + t] is Some by {
            assert(cells[a.sch.alternate(g, tag, j) * a.b + t] is Some);
        }
        lemma_empty_at(cells, a.b, alts[j] as int, s, 0);
    }
}

/// The buckets of the links of a chain.
pub open spec fn link_buckets(chain: Seq<Link>) -> Seq<u32> {
    Seq::new(chain.len(), |i: int| chain[i].bucket)
}

proof fn lemma_kicks_result<S: IndexScheme>(
    a: Attempt<S>,
    chain: Seq<Link>,
    i: int,
    pos: nat,
    n: nat,
    j: int,
    s: int,
)
    requires
        sound(a),
        is_chain(a, chain),
        0 <= i < chain.len(),
        forall|k: int| 0 <= k < chain.len() - 1 ==> !#[trigger] finds_room(a, chain, k),
        is_first_room(a, chain, chain.len() - 1, j, s),
        n >= chain.len() - i,
        pos == (a.pos + 1 + 2 * i) % 0x10_0000_0000_0000_0000,
    ensures
        ({
            let m = chain.len() - 1;
            let g = a.sch.alternate(chain[m].bucket, evicted(a, chain, m).0, j);
            let out = model::kicks(
                a.sch,
                a.b,
                a.seed,
                chain[i].cells,
                link_buckets(chain).take(i),
                pos,
                chain[i].bucket,
                chain[i].tag,
                chain[i].value,
                n,
            );
            &&& out.error is None
            &&& out.cells == after_link(a, chain, m).update(
                g * a.b + s,
                Some(evicted(a, chain, m)),
            )
            &&& out.touched == link_buckets(chain).push(g)
            &&& out.pos == (a.pos + 2 + 2 * m) % 0x10_0000_0000_0000_0000
        }),
    decreases chain.len() - i,
{
    let m = chain.len() - 1;
    let g = chain[i].bucket;
    let next = after_link(a, chain, i);
    let out = evicted(a, chain, i);
    let own = link_segment(a, chain, i);
    let alts = model::alternates(a.sch, g, out.0);
    lemma_chain_shape(a, chain, i);
    lemma_stream(a, i, pos);
    lemma_room_places(a, chain, i);
    lemma_evicting_slot(a, chain, i);
    model::lemma_alternates(a.sch, g, out.0);
    a.sch.lemma_shape();
    assert(link_buckets(chain).take(i).push(g) =~= link_buckets(chain).take(i + 1));
    if i < m {
        assert(!finds_room(a, chain, i));
        assert(chain[i + 1].cells == next);
        vstd::arithmetic::div_mod::lemma_mod_bound(word(a, 2 + 2 * i), a.sch.degree() - 1);
        lemma_kicks_result(
            a,
            chain,
            i + 1,
            model::step(model::step(pos)),
            (n - 1) as nat,
            j,
            s,
        );
    } else {
        lemma_room_at(a, chain, i, j, s, 0);
        assert(link_buckets(chain).take(i + 1) =~= link_buckets(chain));
        model::lemma_slot(a.sch, a.b, next, alts[j] as int, s);
        let w = 0x10_0000_0000_0000_0000int;
        vstd::arithmetic::div_mod::lemma_add_mod_noop(a.pos + 1 + 2 * i, 1, w);
        vstd::arithmetic::div_mod::lemma_mod_twice(a.pos + 1 + 2 * i, w);
    }
}

/// What the evictions come to: the first pair in the chain that has room elsewhere takes the
/// first empty slot of its other candidate buckets, the pairs before it stay where the chain put
/// them, the touched buckets are those of the chain and that of the slot, and the key stream has
/// moved on by the words that were used.
pub proof fn law_chain_result<S: IndexScheme>(a: Attempt<S>, chain: Seq<Link>, j: int, s: int)
    requires
        sound(a),
        a.value.len() == a.value_len,
        !already_held(a),
        !has_room(a),
        is_chain(a, chain),
        chain.len() <= a.max_kicks,
        forall|k: int| 0 <= k < chain.len() - 1 ==> !#[trigger] finds_room(a, chain, k),
        is_first_room(a, chain, chain.len() - 1, j, s),
        a.pos < 0x10_0000_0000_0000_0000,
    ensures
        ({
            let m = chain.len() - 1;
            let g = a.sch.alternate(chain[m].bucket, evicted(a, chain, m).0, j);
            &&& outcome(a).error is None
            &&& outcome(a).cells == after_link(a, chain, m).update(
                g * a.b + s,
                Some(evicted(a, chain, m)),
            )
            &&& outcome(a).touched == link_buckets(chain).push(g)
            &&& outcome(a).pos == (a.pos + 2 + 2 * m) % 0x10_0000_0000_0000_0000
        }),
{
    lemma_terms(a);
    let k = a.sch.degree() as int;
    let start = word(a, 0) % k;
    vstd::arithmetic::div_mod::lemma_small_mod(a.pos, 0x10_0000_0000_0000_0000);
    vstd::arithmetic::div_mod::lemma_mod_bound(word(a, 0), k);
    let buckets = model::candidates(a.sch, a.key, a.fp_bits);
    assert(buckets[start] == chain[0].bucket);
    assert(link_buckets(chain).take(0) =~= Seq::empty());
    lemma_kicks_result(a, chain, 0, model::step(a.pos), a.max_kicks as nat, j, s);
}

// ---------------------------------------------------------------- what is kept
/// A successful insertion loses nothing: the pair is in one of the key's candidate buckets, and
/// every pair that a slot held is still in one of the candidate buckets that go with that slot's
/// bucket and the pair's fingerprint.
pub proof fn law_insertion_loses_nothing<S: IndexScheme>(a: Attempt<S>, x: int)
    requires
        sound(a),
        outcome(a).error is None,
        0 <= x < a.cells.len(),
    ensures
        outcome(a).cells.len() == a.cells.len(),
        exists|j: int, s: int|
            0 <= j < a.sch.degree() && 0 <= s < a.b && #[trigger] outcome(a).cells[key_slot(
                a,
                j,
                s,
            )] == Some((a.sch.tag_of(a.key, a.fp_bits), a.value)),
        a.cells[x] matches Some(e) ==> exists|j: int, s: int|
            0 <= j < a.sch.degree() && 0 <= s < a.b && #[trigger] outcome(a).cells[a.sch.alternate(
                (x / a.b) as u32,
                e.0,
                j,
            ) * a.b + s] == Some(e),
{
    let out = outcome(a).cells;
    let key_buckets = model::candidates(a.sch, a.key, a.fp_bits);
    let tag = a.sch.tag_of(a.key, a.fp_bits);
    lemma_terms(a);
    let g = (x / a.b) as u32;
    let other: model::Item = match a.cells[x] {
        Some(e) => (model::alternates(a.sch, g, e.0), e.0, e.1),
        None => (Seq::empty(), 0, a.value),
    };
    if a.cells[x] is Some {
        let items = model::items(a.sch, a.b, a.cells);
        assert(items[x] == Some(other));
        assert(items.contains(Some(other)));
        items.to_multiset_ensures();
    }
    model::law_inserted_is_found(
        a.sch,
        a.b,
        a.fp_bits,
        a.value_len,
        a.max_kicks,
        a.seed,
        a.pos,
        a.cells,
        a.key,
        a.value,
        other,
    );
    model::law_insertion_contents(
        a.sch,
        a.b,
        a.fp_bits,
        a.value_len,
        a.max_kicks,
        a.seed,
        a.pos,
        a.cells,
        a.key,
        a.value,
    );
    let (j, s) = choose|j: int, s: int|
        0 <= j < key_buckets.len() && 0 <= s < a.b && #[trigger] out[key_buckets[j] * a.b + s]
            == Some((tag, a.value));
    assert(out[key_slot(a, j, s)] == Some((tag, a.value)));
    if let Some(e) = a.cells[x] {
        let (i, t) = choose|i: int, t: int|
            0 <= i < other.0.len() && 0 <= t < a.b && #[trigger] out[other.0[i] * a.b + t] == Some(
                (other.1, other.2),
            );
        assert(out[a.sch.alternate(g, e.0, i) * a.b + t] == Some(e));
    }
}

// ---------------------------------------------------------------- lookups
/// Update and delete act on the first slot that holds the key's fingerprint, in the order of
/// the segments and of the slots.
pub proof fn law_first_match_is_found<S: IndexScheme>(
    sch: S,
    b: int,
    fp_bits: u32,
    cells: Seq<Cell>,
    key: Seq<u8>,
    j: int,
    s: int,
)
    requires
        0 <= j < sch.degree(),
        0 <= s < b,
        cells[sch.index_of(key, fp_bits, j) * b + s] matches Some(e) && e.0 == sch.tag_of(
            key,
            fp_bits,
        ),
        forall|i: int, t: int|
            0 <= i < j && 0 <= t < b ==> !((#[trigger] cells[sch.index_of(key, fp_bits, i) * b
                + t]) is Some && (cells[sch.index_of(key, fp_bits, i) * b + t]->0).0 == sch.tag_of(
                key,
                fp_bits,
            )),
        forall|t: int|
            0 <= t < s ==> !((#[trigger] cells[sch.index_of(key, fp_bits, j) * b + t]) is Some && (
            cells[sch.index_of(key, fp_bits, j) * b + t]->0).0 == sch.tag_of(key, fp_bits)),
    ensures
        model::first_found(
            cells,
            b,
            model::candidates(sch, key, fp_bits),
            sch.tag_of(key, fp_bits),
            0,
        ) == Some(sch.index_of(key, fp_bits, j) * b + s),
{
    lemma_found_at(sch, b, fp_bits, cells, key, j, s, 0);
}

proof fn lemma_found_at<S: IndexScheme>(
    sch: S,
    b: int,
    fp_bits: u32,
    cells: Seq<Cell>,
    key: Seq<u8>,
    j: int,
    s: int,
    i: int,
)
    requires
        0 <= i <= j < sch.degree(),
        0 <= s < b,
        cells[sch.index_of(key, fp_bits, j) * b + s] matches Some(e) && e.0 == sch.tag_of(
            key,
            fp_bits,
        ),
        forall|k: int, t: int|
            0 <= k < j && 0 <= t < b ==> !((#[trigger] cells[sch.index_of(key, fp_bits, k) * b
                + t]) is Some && (cells[sch.index_of(key, fp_bits, k) * b + t]->0).0 == sch.tag_of(
                key,
                fp_bits,
            )),
        forall|t: int|
            0 <= t < s ==> !((#[trigger] cells[sch.index_of(key, fp_bits, j) * b + t]) is Some && (
            cells[sch.index_of(key, fp_bits, j) * b + t]->0).0 == sch.tag_of(key, fp_bits)),
    ensures
        model::first_found(
            cells,
            b,
            model::candidates(sch, key, fp_bits),
            sch.tag_of(key, fp_bits),
            i,
        ) == Some(sch.index_of(key, fp_bits, j) * b + s),
    decreases j - i,
{
    let tag = sch.tag_of(key, fp_bits);
    let g = sch.index_of(key, fp_bits, i) as int;
    assert(model::candidates(sch, key, fp_bits)[i] == g);
    model::lemma_first_tag(cells, b, g, tag, 0);
    if i < j {
        if let Some(t) = model::first_tag(cells, b, g, tag, 0) {
            assert(cells[sch.index_of(key, fp_bits, i) * b + t] is Some);
        }
        lemma_found_at(sch, b, fp_bits, cells, key, j, s, i + 1);
    } else {
        lemma_tag_at(cells, b, g, tag, s, 0);
    }
}

proof fn lemma_tag_at(cells: Seq<Cell>, b: int, g: int, tag: u32, s: int, t: int)
    requires
        0 <= t <= s < b,
        cells[g * b + s] matches Some(e) && e.0 == tag,
        forall|u: int|
            0 <= u < s ==> !((#[trigger] cells[g * b + u]) is Some && (cells[g * b + u]->0).0
                == tag),
    ensures
        model::first_tag(cells, b, g, tag, t) == Some(s),
    decreases s - t,
{
    if t < s {
        assert(!(cells[g * b + t] is Some && (cells[g * b + t]->0).0 == tag));
        lemma_tag_at(cells, b, g, tag, s, t + 1);
    }
}

/// Where none of the key's candidate buckets holds its fingerprint, nothing is found.
pub proof fn law_no_match_is_not_found<S: IndexScheme>(
    sch: S,
    b: int,
    fp_bits: u32,
    cells: Seq<Cell>,
    key: Seq<u8>,
)
    requires
        sch.ok(),
        b > 0,
        cells.len() == sch.degree() * sch.segment() * b,
        1 <= fp_bits <= 32,
    ensures
        (forall|i: int, t: int|
            0 <= i < sch.degree() && 0 <= t < b ==> !((#[trigger] cells[sch.index_of(
                key,
                fp_bits,
                i,
            ) * b + t]) is Some && (cells[sch.index_of(key, fp_bits, i) * b + t]->0).0
                == sch.tag_of(key, fp_bits))) ==> model::first_found(
            cells,
            b,
            model::candidates(sch, key, fp_bits),
            sch.tag_of(key, fp_bits),
            0,
        ) is None,
{
    let buckets = model::candidates(sch, key, fp_bits);
    let tag = sch.tag_of(key, fp_bits);
    model::lemma_candidates(sch, key, fp_bits);
    model::lemma_first_found(sch, cells, b, buckets, tag, 0);
    if let Some(y) = model::first_found(cells, b, buckets, tag, 0) {
        let i = choose|i: int| 0 <= i < buckets.len() && (#[trigger] buckets[i]) == y / b;
        let t = y % b;
        vstd::arithmetic::div_mod::lemma_fundamental_div_mod(y, b);
        vstd::arithmetic::div_mod::lemma_mod_bound(y, b);
        assert(b * (y / b) == buckets[i] * b) by (nonlinear_arith)
            requires
                buckets[i] == y / b,
        ;
        assert(cells[sch.index_of(key, fp_bits, i) * b + t] is Some);
    }
}

/// The buckets of a batch are the touched ones, each of them once, in the order in which they
/// were touched last.
pub proof fn law_batch_names_each_bucket_once(touched: Seq<u32>)
    ensures
        ({
            let kept = model::last_touches(touched, touched.len() as int);
            &&& forall|g: u32| #[trigger] kept.contains(g) <==> touched.contains(g)
            &&& forall|i: int, j: int| 0 <= i < j < kept.len() ==> kept[i] != kept[j]
            &&& forall|i: int, j: int|
                0 <= i < j < kept.len() ==> touched_later(
                    touched,
                    #[trigger] kept[i],
                    #[trigger] kept[j],
                )
        }),
{
    let n = touched.len() as int;
    let kept = model::last_touches(touched, n);
    model::lemma_last_touches(touched, n);
    lemma_kept_once(touched, n);
    lemma_kept_order(touched, n);
    assert(touched.skip(n).len() == 0);
    assert forall|g: u32| #[trigger] kept.contains(g) implies touched.contains(g) by {
        let k = choose|k: int| 0 <= k < kept.len() && kept[k] == g;
        assert(touched.contains(kept[k]));
    }
    assert forall|g: u32| touched.contains(g) implies #[trigger] kept.contains(g) by {
        let i = choose|i: int| 0 <= i < n && touched[i] == g;
        assert(kept.contains(touched[i]) || touched.skip(n).contains(touched[i]));
    }
}

/// Bucket `g` is not touched from `y` on.
pub open spec fn not_after(touched: Seq<u32>, g: u32, y: int) -> bool {
    forall|x: int| y <= x < touched.len() ==> #[trigger] touched[x] != g
}

/// Bucket `h` is touched after bucket `g` is touched for the last time.
pub open spec fn touched_later(touched: Seq<u32>, g: u32, h: u32) -> bool {
    exists|y: int|
        0 <= y < touched.len() && touched[y] == h && #[trigger] not_after(touched, g, y)
}

proof fn lemma_kept_order(touched: Seq<u32>, n: int)
    requires
        0 <= n <= touched.len(),
    ensures
        ({
            let kept = model::last_touches(touched, n);
            forall|i: int, j: int|
                0 <= i < j < kept.len() ==> touched_later(
                    touched,
                    #[trigger] kept[i],
                    #[trigger] kept[j],
                )
        }),
    decreases n,
{
    if n > 0 {
        let prev = model::last_touches(touched, n - 1);
        let kept = model::last_touches(touched, n);
        lemma_kept_order(touched, n - 1);
        lemma_kept_once(touched, n - 1);
        assert forall|i: int, j: int| 0 <= i < j < kept.len() implies touched_later(
            touched,
            #[trigger] kept[i],
            #[trigger] kept[j],
        ) by {
            if j < prev.len() {
                assert(kept[i] == prev[i] && kept[j] == prev[j]);
            } else {
                let y = n - 1;
                assert(kept[i] == prev[i]);
                assert(!touched.skip(n - 1).contains(prev[i]));
                assert forall|x: int| y <= x < touched.len() implies #[trigger] touched[x]
                    != kept[i] by {
                    assert(touched.skip(n - 1)[x - (n - 1)] == touched[x]);
                }
                assert(not_after(touched, kept[i], y));
            }
        }
    }
}

proof fn lemma_kept_once(touched: Seq<u32>, n: int)
    requires
        0 <= n <= touched.len(),
    ensures
        forall|i: int, j: int|
            0 <= i < j < model::last_touches(touched, n).len() ==> model::last_touches(
                touched,
                n,
            )[i] != model::last_touches(touched, n)[j],
        forall|k: int|
            0 <= k < model::last_touches(touched, n).len() ==> !touched.skip(n).contains(
                #[trigger] model::last_touches(touched, n)[k],
            ),
    decreases n,
{
    if n > 0 {
        let prev = model::last_touches(touched, n - 1);
        let all = model::last_touches(touched, n);
        let t = touched[n - 1];
        lemma_kept_once(touched, n - 1);
        let rest = touched.skip(n - 1);
        assert(rest[0] == t);
        assert forall|k: int| 0 <= k < prev.len() implies prev[k] != t && !touched.skip(
            n,
        ).contains(#[trigger] prev[k]) by {
            assert(!rest.contains(prev[k]));
            if prev[k] == t {
                assert(rest.contains(rest[0]));
            }
            if touched.skip(n).contains(prev[k]) {
                let m = choose|m: int|
                    0 <= m < touched.skip(n).len() && touched.skip(n)[m] == prev[k];
                assert(rest[m + 1] == prev[k]);
            }
        }
        assert forall|k: int| 0 <= k < all.len() implies !touched.skip(n).contains(
            #[trigger] all[k],
        ) by {
            if k < prev.len() {
                assert(all[k] == prev[k]);
            }
        }
        assert forall|i: int, j: int| 0 <= i < j < all.len() implies all[i] != all[j] by {
            if j < prev.len() {
                assert(prev[i] != prev[j]);
            }
        }
    }
}

} // verus!
