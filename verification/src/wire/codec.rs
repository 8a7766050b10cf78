//! Reading a message back from its own bits, and the other way round.
use vstd::arithmetic::power2::*;
use vstd::prelude::*;

use crate::bits;
use crate::wire::bit_io;
use crate::wire::message;
use crate::wire::layout::DeltaWireLayout;
use crate::wire::WireError;

verus! {

/// The widths are large enough for the indices, and a delta has one bit more than a cell.
pub open spec fn layout_ok(l: DeltaWireLayout) -> bool {
    &&& l.delta_bits == l.plaintext_bits + 1
    &&& l.num_buckets <= pow2(l.bucket_bits as nat)
    &&& l.row_width <= pow2(l.offset_bits as nat)
}

/// The string `x` stands at position `pos` of `s`.
#[verifier::opaque]
pub open spec fn at(s: Seq<bool>, pos: nat, x: Seq<bool>) -> bool {
    &&& pos + x.len() <= s.len()
    &&& s.subrange(pos as int, (pos + x.len()) as int) == x
}

pub proof fn lemma_at_split(s: Seq<bool>, pos: nat, a: Seq<bool>, b: Seq<bool>)
    ensures
        at(s, pos, a + b) <==> at(s, pos, a) && at(s, pos + a.len(), b),
{
    reveal(at);
    let ab = a + b;
    let p = pos as int;
    let n = a.len() as int;
    let m = b.len() as int;
    if at(s, pos, ab) {
        let x = s.subrange(p, p + n + m);
        assert(x == ab);
        assert(s.subrange(p, p + n) =~= x.subrange(0, n));
        assert(ab.subrange(0, n) =~= a);
        assert(s.subrange(p + n, p + n + m) =~= x.subrange(n, n + m));
        assert(ab.subrange(n, n + m) =~= b);
    }
    if at(s, pos, a) && at(s, pos + a.len(), b) {
        assert(s.subrange(p, p + n + m) =~= s.subrange(p, p + n) + s.subrange(p + n, p + n + m));
    }
}

pub proof fn lemma_at_read(s: Seq<bool>, pos: nat, v: nat, width: nat)
    requires
        v < pow2(width),
        at(s, pos, bits::field(v, width)),
    ensures
        bit_io::read(s, pos, width) == Some(v),
{
    reveal(at);
    bits::lemma_val_field_small(v, width);
}

pub proof fn lemma_read_at(s: Seq<bool>, pos: nat, width: nat)
    ensures
        bit_io::read(s, pos, width) matches Some(v) ==> v < pow2(width) && at(
            s,
            pos,
            bits::field(v, width),
        ),
{
    reveal(at);
    if pos + width <= s.len() {
        let x = s.subrange(pos as int, (pos + width) as int);
        bits::lemma_val_bound(x);
        bits::lemma_field_val(x);
    }
}

/// A flag bit reads as `1` or `0`.
pub proof fn lemma_read_flag(s: Seq<bool>, pos: nat)
    ensures
        pos < s.len() ==> bit_io::read(s, pos, 1) == Some(bits::bit_value(s[pos as int])),
        pos < s.len() ==> at(s, pos, seq![s[pos as int]]),
        pos >= s.len() ==> bit_io::read(s, pos, 1) is None,
{
    reveal(at);
    if pos < s.len() {
        let x = s.subrange(pos as int, (pos + 1) as int);
        assert(x =~= Seq::<bool>::empty().push(s[pos as int]));
        bits::lemma_val_push(Seq::<bool>::empty(), s[pos as int]);
        lemma2_to64();
        assert(x =~= seq![s[pos as int]]);
    }
}

pub proof fn lemma_at_empty(s: Seq<bool>, pos: nat)
    requires
        pos <= s.len(),
    ensures
        at(s, pos, Seq::<bool>::empty()),
{
    reveal(at);
    assert(s.subrange(pos as int, pos as int) =~= Seq::<bool>::empty());
}

pub proof fn lemma_at_flag(s: Seq<bool>, pos: nat, b: bool)
    requires
        at(s, pos, seq![b]),
    ensures
        bit_io::read(s, pos, 1) == Some(bits::bit_value(b)),
        pos < s.len(),
{
    reveal(at);
    assert(s.subrange(pos as int, pos as int + 1)[0] == s[pos as int]);
    assert(seq![b][0] == b);
    lemma_read_flag(s, pos);
}

// ---------------------------------------------------------------- concatenation
pub proof fn lemma_deltas_bits_append(l: DeltaWireLayout, a: Seq<int>, b: Seq<int>)
    ensures
        message::deltas_bits(l, a + b) == message::deltas_bits(l, a) + message::deltas_bits(l, b),
    decreases b.len(),
{
    if b.len() == 0 {
        assert(a + b =~= a);
        assert(message::deltas_bits(l, a) + message::deltas_bits(l, b) =~= message::deltas_bits(l, a));
    } else {
        assert((a + b).drop_last() =~= a + b.drop_last());
        lemma_deltas_bits_append(l, a, b.drop_last());
        let f = bits::field(message::code(l, b.last()), l.delta_bits as nat);
        assert(message::deltas_bits(l, a) + (message::deltas_bits(l, b.drop_last()) + f) =~= (
        message::deltas_bits(l, a) + message::deltas_bits(l, b.drop_last())) + f);
    }
}

pub proof fn lemma_deltas_bits_len(l: DeltaWireLayout, d: Seq<int>)
    ensures
        message::deltas_bits(l, d).len() == d.len() * l.delta_bits as nat,
    decreases d.len(),
{
    if d.len() > 0 {
        lemma_deltas_bits_len(l, d.drop_last());
        assert((d.len() - 1) * l.delta_bits as nat + l.delta_bits as nat == d.len()
            * l.delta_bits as nat) by (nonlinear_arith);
    }
}

/// The bits of a run take `run_len_bits` places.
pub proof fn lemma_run_bits_len(l: DeltaWireLayout, r: message::Run)
    ensures
        message::run_bits(l, r).len() == message::run_len_bits(l, r.deltas.len()),
{
    lemma_deltas_bits_len(l, r.deltas);
}

/// The first run, a set bit, and the other runs.
pub proof fn lemma_runs_bits_cons(l: DeltaWireLayout, runs: Seq<message::Run>)
    requires
        runs.len() >= 2,
    ensures
        message::runs_bits(l, runs) == message::run_bits(l, runs[0]).push(true) + message::runs_bits(
            l,
            runs.drop_first(),
        ),
    decreases runs.len(),
{
    let first = message::run_bits(l, runs[0]);
    let last = message::run_bits(l, runs.last());
    if runs.len() == 2 {
        assert(runs.drop_last() =~= seq![runs[0]]);
        assert(runs.drop_first() =~= seq![runs.last()]);
        assert(message::runs_bits(l, runs.drop_last()) == first);
        assert(message::runs_bits(l, runs.drop_first()) == last);
    } else {
        lemma_runs_bits_cons(l, runs.drop_last());
        assert(runs.drop_last().drop_first() =~= runs.drop_first().drop_last());
        let mid = message::runs_bits(l, runs.drop_first().drop_last());
        assert((first.push(true) + mid).push(true) + last =~= first.push(true) + (mid.push(true)
            + last));
    }
}

pub proof fn lemma_rows_bits_append(l: DeltaWireLayout, a: Seq<message::Row>, b: Seq<message::Row>)
    ensures
        message::rows_bits(l, a + b) == message::rows_bits(l, a) + message::rows_bits(l, b),
    decreases b.len(),
{
    if b.len() == 0 {
        assert(a + b =~= a);
        assert(message::rows_bits(l, a) + message::rows_bits(l, b) =~= message::rows_bits(l, a));
    } else {
        assert((a + b).drop_last() =~= a + b.drop_last());
        lemma_rows_bits_append(l, a, b.drop_last());
        let f = message::row_bits(l, b.last());
        assert(message::rows_bits(l, a) + (message::rows_bits(l, b.drop_last()) + f) =~= (
        message::rows_bits(l, a) + message::rows_bits(l, b.drop_last())) + f);
    }
}

pub proof fn lemma_rows_bits_cons(l: DeltaWireLayout, rows: Seq<message::Row>)
    requires
        rows.len() >= 1,
    ensures
        message::rows_bits(l, rows) == message::row_bits(l, rows[0]) + message::rows_bits(
            l,
            rows.drop_first(),
        ),
{
    let head = seq![rows[0]];
    assert(rows =~= head + rows.drop_first());
    lemma_rows_bits_append(l, head, rows.drop_first());
    assert(head.drop_last() =~= Seq::<message::Row>::empty());
    assert(message::rows_bits(l, head.drop_last()) =~= Seq::<bool>::empty());
    assert(message::rows_bits(l, head) =~= message::row_bits(l, rows[0]));
}

// ---------------------------------------------------------------- from bits to values
pub proof fn lemma_code_bound(l: DeltaWireLayout, delta: int)
    requires
        layout_ok(l),
        -message::modulus(l) < delta < message::modulus(l),
    ensures
        message::code(l, delta) == delta + message::modulus(l) - 1,
        message::code(l, delta) <= 2 * message::modulus(l) - 2,
        message::code(l, delta) < pow2(l.delta_bits as nat),
{
    lemma_pow2_unfold(l.delta_bits as nat);
}

pub proof fn lemma_parse_deltas_ok(
    l: DeltaWireLayout,
    s: Seq<bool>,
    pos: nat,
    start: int,
    d: Seq<int>,
    k: nat,
)
    requires
        layout_ok(l),
        k <= d.len(),
        forall|i: int|
            0 <= i < d.len() ==> -message::modulus(l) < #[trigger] d[i] < message::modulus(l),
        start + d.len() <= 0x1_0000,
        at(s, pos, message::deltas_bits(l, d.skip(k as int))),
    ensures
        message::parse_deltas(l, s, pos, start, d.len(), d.take(k as int)) == Ok::<
            Seq<int>,
            WireError,
        >(d),
    decreases d.len() - k,
{
    reveal(message::parse_deltas);
    if k == d.len() {
        assert(d.take(k as int) =~= d);
    } else {
        let head = seq![d[k as int]];
        let rest = d.skip(k as int + 1);
        assert(d.skip(k as int) =~= head + rest);
        lemma_deltas_bits_append(l, head, rest);
        assert(head.drop_last() =~= Seq::<int>::empty());
        let f = bits::field(message::code(l, d[k as int]), l.delta_bits as nat);
        assert(message::deltas_bits(l, head.drop_last()) =~= Seq::<bool>::empty());
        assert(message::deltas_bits(l, head) =~= f);
        lemma_at_split(s, pos, f, message::deltas_bits(l, rest));
        lemma_code_bound(l, d[k as int]);
        lemma_at_read(s, pos, message::code(l, d[k as int]), l.delta_bits as nat);
        assert(d.take(k as int).push(d[k as int]) =~= d.take(k as int + 1));
        lemma_parse_deltas_ok(l, s, pos + l.delta_bits as nat, start, d, k + 1);
    }
}

pub proof fn lemma_parse_run_ok(
    l: DeltaWireLayout,
    s: Seq<bool>,
    pos: nat,
    prev: Seq<message::Run>,
    r: message::Run,
)
    requires
        layout_ok(l),
        message::run_valid(l, r),
        prev.len() > 0 ==> r.start > message::run_end(prev.last()) + l.max_gap,
        at(s, pos, message::run_bits(l, r)),
    ensures
        message::parse_run(l, s, pos, prev) == Ok::<message::Run, WireError>(r),
{
    reveal(message::parse_run);
    let ow = l.offset_bits as nat;
    let a = bits::field(r.start as nat, ow);
    let b = bits::field((r.deltas.len() - 1) as nat, ow);
    let c = message::deltas_bits(l, r.deltas);
    lemma_at_split(s, pos, a + b, c);
    lemma_at_split(s, pos, a, b);
    lemma_at_read(s, pos, r.start as nat, ow);
    lemma_at_read(s, pos + ow, (r.deltas.len() - 1) as nat, ow);
    assert(r.deltas.skip(0) =~= r.deltas);
    assert(r.deltas.take(0) =~= Seq::<int>::empty());
    lemma_parse_deltas_ok(l, s, pos + 2 * ow, r.start, r.deltas, 0);
}

#[verifier::spinoff_prover]
#[verifier::rlimit(40)]
pub proof fn lemma_parse_runs_ok(
    l: DeltaWireLayout,
    s: Seq<bool>,
    pos: nat,
    runs: Seq<message::Run>,
    k: nat,
)
    requires
        layout_ok(l),
        k < runs.len(),
        message::runs_valid(l, runs),
        at(s, pos, message::runs_bits(l, runs.skip(k as int)).push(false)),
    ensures
        message::parse_runs(l, s, pos, runs.take(k as int)) == Ok::<
            (Seq<message::Run>, nat),
            WireError,
        >((runs, pos + message::runs_bits(l, runs.skip(k as int)).len() + 1)),
    decreases runs.len() - k,
{
    reveal(message::parse_runs);
    let rest = runs.skip(k as int);
    let r = runs[k as int];
    let first = message::run_bits(l, r);
    let prev = runs.take(k as int);
    assert(rest[0] == r);
    assert(message::run_valid(l, r));
    if k > 0 {
        assert(prev.last() == runs[k - 1]);
    }
    lemma_run_bits_len(l, r);
    let after = pos + first.len();
    if rest.len() == 1 {
        assert(message::runs_bits(l, rest) == first);
        assert(first.push(false) =~= first + seq![false]);
        lemma_at_split(s, pos, first, seq![false]);
        lemma_parse_run_ok(l, s, pos, prev, r);
        lemma_at_flag(s, after, false);
        assert(prev.push(r) =~= runs);
    } else {
        lemma_runs_bits_cons(l, rest);
        assert(rest.drop_first() =~= runs.skip(k as int + 1));
        let tail = message::runs_bits(l, runs.skip(k as int + 1)).push(false);
        assert(message::runs_bits(l, rest).push(false) =~= (first + seq![true]) + tail);
        lemma_at_split(s, pos, first + seq![true], tail);
        lemma_at_split(s, pos, first, seq![true]);
        lemma_parse_run_ok(l, s, pos, prev, r);
        lemma_at_flag(s, after, true);
        assert(prev.push(r) =~= runs.take(k as int + 1));
        lemma_parse_runs_ok(l, s, after + 1, runs, k + 1);
    }
}

pub proof fn lemma_parse_row_ok(
    l: DeltaWireLayout,
    s: Seq<bool>,
    pos: nat,
    prev: Seq<message::Row>,
    row: message::Row,
)
    requires
        layout_ok(l),
        message::row_valid(l, row),
        prev.len() > 0 ==> prev.last().bucket < row.bucket,
        at(s, pos, message::row_bits(l, row)),
    ensures
        message::parse_row(l, s, pos, prev) == Ok::<Option<(message::Row, nat)>, WireError>(
            Some((row, pos + message::row_bits(l, row).len())),
        ),
{
    reveal(message::parse_row);
    let f = bits::field(row.bucket as nat, l.bucket_bits as nat);
    let rb = message::runs_bits(l, row.runs).push(false);
    assert(message::row_bits(l, row) =~= (seq![true] + f) + rb);
    lemma_at_split(s, pos, seq![true] + f, rb);
    lemma_at_split(s, pos, seq![true], f);
    lemma_at_flag(s, pos, true);
    lemma_at_read(s, pos + 1, row.bucket as nat, l.bucket_bits as nat);
    assert(row.runs.skip(0) =~= row.runs);
    assert(row.runs.take(0) =~= Seq::<message::Run>::empty());
    lemma_parse_runs_ok(l, s, pos + 1 + l.bucket_bits as nat, row.runs, 0);
}

pub proof fn lemma_parse_rows_ok(
    l: DeltaWireLayout,
    s: Seq<bool>,
    pos: nat,
    rows: Seq<message::Row>,
    k: nat,
)
    requires
        layout_ok(l),
        k <= rows.len(),
        message::rows_valid(l, rows),
        at(s, pos, message::rows_bits(l, rows.skip(k as int)).push(false)),
    ensures
        message::parse_rows(l, s, pos, rows.take(k as int)) == Ok::<
            (Seq<message::Row>, nat),
            WireError,
        >((rows, pos + message::rows_bits(l, rows.skip(k as int)).len() + 1)),
    decreases rows.len() - k,
{
    reveal(message::parse_rows);
    let rest = rows.skip(k as int);
    if k == rows.len() {
        reveal(message::parse_row);
        assert(message::rows_bits(l, rest) =~= Seq::<bool>::empty());
        assert(message::rows_bits(l, rest).push(false) =~= seq![false]);
        lemma_at_flag(s, pos, false);
        assert(rows.take(k as int) =~= rows);
    } else {
        let row = rows[k as int];
        assert(message::row_valid(l, row));
        lemma_rows_bits_cons(l, rest);
        assert(rest.drop_first() =~= rows.skip(k as int + 1));
        let rb = message::row_bits(l, row);
        let tail = message::rows_bits(l, rows.skip(k as int + 1)).push(false);
        assert(message::rows_bits(l, rest).push(false) =~= rb + tail);
        lemma_at_split(s, pos, rb, tail);
        if k > 0 {
            assert(rows.take(k as int).last() == rows[k - 1]);
        }
        lemma_parse_row_ok(l, s, pos, rows.take(k as int), row);
        assert(rows.take(k as int).push(row) =~= rows.take(k as int + 1));
        lemma_parse_rows_ok(l, s, pos + rb.len(), rows, k + 1);
    }
}

/// The padded bits of a valid message read back as that message.
pub proof fn lemma_parse_message_ok(l: DeltaWireLayout, epoch: u64, rows: Seq<message::Row>)
    requires
        layout_ok(l),
        message::rows_valid(l, rows),
    ensures
        message::parse_message(l, bits::padded(message::message_bits(l, epoch, rows))) == Ok::<
            (u64, Seq<message::Row>),
            WireError,
        >((epoch, rows)),
{
    let m = message::message_bits(l, epoch, rows);
    let s = bits::padded(m);
    let pad = Seq::new(bits::pad_len(m.len()), |i: int| false);
    let f = bits::field(epoch as nat, 64);
    let tail = message::rows_bits(l, rows).push(false);
    assert(s.subrange(0, s.len() as int) =~= s);
    assert(at(s, 0, m + pad)) by {
        reveal(at);
    }
    lemma_at_split(s, 0, m, pad);
    assert(m =~= f + tail);
    lemma_at_split(s, 0, f, tail);
    lemma2_to64();
    lemma_at_read(s, 0, epoch as nat, 64);
    assert(rows.skip(0) =~= rows);
    assert(rows.take(0) =~= Seq::<message::Row>::empty());
    lemma_parse_rows_ok(l, s, 64, rows, 0);
    assert(m.len() == 64 + tail.len());
    assert forall|i: int| m.len() <= i < s.len() implies !s[i] by {
        assert(s[i] == pad[i - m.len()]);
    }
}

// ---------------------------------------------------------------- from values to bits
pub proof fn lemma_parse_deltas_inv(
    l: DeltaWireLayout,
    s: Seq<bool>,
    pos: nat,
    start: int,
    len: nat,
    acc: Seq<int>,
)
    requires
        layout_ok(l),
        acc.len() <= len,
        pos <= s.len(),
    ensures
        message::parse_deltas(l, s, pos, start, len, acc) matches Ok(d) ==> {
            &&& d.len() == len
            &&& d.take(acc.len() as int) == acc
            &&& at(s, pos, message::deltas_bits(l, d.skip(acc.len() as int)))
            &&& forall|i: int|
                acc.len() <= i < len ==> -message::modulus(l) < #[trigger] d[i] < message::modulus(
                    l,
                ) && (d[i] != 0 ==> start + i <= 0xffff)
        },
    decreases len - acc.len(),
{
    reveal(message::parse_deltas);
    if acc.len() == len {
        assert(acc.take(acc.len() as int) =~= acc);
        let e = acc.skip(acc.len() as int);
        assert(e =~= Seq::<int>::empty());
        assert(message::deltas_bits(l, e) =~= Seq::<bool>::empty());
        lemma_at_empty(s, pos);
    } else {
        lemma_read_at(s, pos, l.delta_bits as nat);
        if let Some(c) = bit_io::read(s, pos, l.delta_bits as nat) {
            let delta = c - (message::modulus(l) - 1);
            let next = acc.push(delta);
            if c <= 2 * message::modulus(l) - 2 && !(delta != 0 && start + acc.len() > 0xffff) {
                lemma_parse_deltas_inv(l, s, pos + l.delta_bits as nat, start, len, next);
                if let Ok(d) = message::parse_deltas(
                    l,
                    s,
                    pos + l.delta_bits as nat,
                    start,
                    len,
                    next,
                ) {
                    let n = acc.len() as int;
                    assert(d.take(n) =~= d.take(n + 1).take(n));
                    assert(next.take(n) =~= acc);
                    assert(d[n] == d.take(n + 1)[n]);
                    let head = seq![delta];
                    assert(d.skip(n) =~= head + d.skip(n + 1));
                    lemma_deltas_bits_append(l, head, d.skip(n + 1));
                    assert(head.drop_last() =~= Seq::<int>::empty());
                    let f = bits::field(c, l.delta_bits as nat);
                    assert(message::deltas_bits(l, head.drop_last()) =~= Seq::<bool>::empty());
                    assert(message::deltas_bits(l, head) =~= f);
                    lemma_at_split(s, pos, f, message::deltas_bits(l, d.skip(n + 1)));
                }
            }
        }
    }
}

pub proof fn lemma_parse_run_inv(
    l: DeltaWireLayout,
    s: Seq<bool>,
    pos: nat,
    prev: Seq<message::Run>,
)
    requires
        layout_ok(l),
    ensures
        message::parse_run(l, s, pos, prev) matches Ok(r) ==> {
            &&& message::run_valid(l, r)
            &&& at(s, pos, message::run_bits(l, r))
            &&& prev.len() > 0 ==> r.start > message::run_end(prev.last()) + l.max_gap
        },
{
    reveal(message::parse_run);
    let ow = l.offset_bits as nat;
    lemma_read_at(s, pos, ow);
    lemma_read_at(s, pos + ow, ow);
    if let Ok(r) = message::parse_run(l, s, pos, prev) {
        let len = r.deltas.len();
        let a = bits::field(r.start as nat, ow);
        let start = bit_io::read(s, pos, ow)->0;
        let lm1 = bit_io::read(s, pos + ow, ow)->0;
        let b = bits::field(lm1, ow);
        let none = Seq::<int>::empty();
        lemma_parse_deltas_inv(l, s, pos + 2 * ow, start as int, lm1 + 1, none);
        assert(r.deltas.skip(0) =~= r.deltas);
        assert(len == lm1 + 1);
        lemma_at_split(s, pos, a + b, message::deltas_bits(l, r.deltas));
        lemma_at_split(s, pos, a, b);
        assert(r.deltas.last() == r.deltas[len - 1]);
    }
}

#[verifier::spinoff_prover]
#[verifier::rlimit(40)]
pub proof fn lemma_parse_runs_inv(
    l: DeltaWireLayout,
    s: Seq<bool>,
    pos: nat,
    acc: Seq<message::Run>,
)
    requires
        layout_ok(l),
        message::runs_valid(l, acc),
    ensures
        message::parse_runs(l, s, pos, acc) matches Ok((runs, after)) ==> {
            &&& message::runs_valid(l, runs)
            &&& runs.len() > acc.len()
            &&& runs.take(acc.len() as int) == acc
            &&& at(s, pos, message::runs_bits(l, runs.skip(acc.len() as int)).push(false))
            &&& after == pos + message::runs_bits(l, runs.skip(acc.len() as int)).len() + 1
        },
    decreases s.len() - pos,
{
    reveal(message::parse_runs);
    lemma_parse_run_inv(l, s, pos, acc);
    if let Ok(r) = message::parse_run(l, s, pos, acc) {
        lemma_run_bits_len(l, r);
        let rb = message::run_bits(l, r);
        let after = pos + rb.len();
        let next = acc.push(r);
        let n = acc.len() as int;
        assert(message::runs_valid(l, next)) by {
            assert forall|i: int| 1 <= i < next.len() implies (#[trigger] next[i]).start
                > message::run_end(next[i - 1]) + l.max_gap by {
                if i < n {
                    assert(acc[i].start > message::run_end(acc[i - 1]) + l.max_gap);
                } else {
                    assert(acc.last() == next[i - 1]);
                }
            }
        }
        lemma_read_flag(s, after);
        if let Some(flag) = bit_io::read(s, after, 1) {
            let fb = s[after as int];
            if flag == 0 {
                assert(next.take(n) =~= acc);
                assert(next.skip(n) =~= seq![r]);
                lemma_at_split(s, pos, rb, seq![false]);
                assert(rb.push(false) =~= rb + seq![false]);
                assert(message::runs_bits(l, next.skip(n)) == rb);
            } else {
                lemma_parse_runs_inv(l, s, after + 1, next);
                if let Ok((runs, end)) = message::parse_runs(l, s, after + 1, next) {
                    assert(runs.take(n) =~= runs.take(n + 1).take(n));
                    assert(next.take(n) =~= acc);
                    assert(runs[n] == runs.take(n + 1)[n]);
                    let rest = runs.skip(n);
                    assert(rest.drop_first() =~= runs.skip(n + 1));
                    assert(rest[0] == r);
                    lemma_runs_bits_cons(l, rest);
                    let tail = message::runs_bits(l, runs.skip(n + 1)).push(false);
                    assert(message::runs_bits(l, rest).push(false) =~= (rb + seq![true]) + tail);
                    lemma_at_split(s, pos, rb + seq![true], tail);
                    lemma_at_split(s, pos, rb, seq![true]);
                }
            }
        }
    }
}

pub proof fn lemma_parse_row_inv(
    l: DeltaWireLayout,
    s: Seq<bool>,
    pos: nat,
    prev: Seq<message::Row>,
)
    requires
        layout_ok(l),
    ensures
        message::parse_row(l, s, pos, prev) matches Ok(Some((row, after))) ==> {
            &&& message::row_valid(l, row)
            &&& prev.len() > 0 ==> prev.last().bucket < row.bucket
            &&& at(s, pos, message::row_bits(l, row))
            &&& after == pos + message::row_bits(l, row).len()
        },
        message::parse_row(l, s, pos, prev) matches Ok(None) ==> at(s, pos, seq![false]),
{
    reveal(message::parse_row);
    lemma_read_flag(s, pos);
    lemma_read_at(s, pos + 1, l.bucket_bits as nat);
    let p2 = pos + 1 + l.bucket_bits as nat;
    let none = Seq::<message::Run>::empty();
    assert(message::runs_valid(l, none));
    lemma_parse_runs_inv(l, s, p2, none);
    if let Ok(Some((row, after))) = message::parse_row(l, s, pos, prev) {
        let f = bits::field(row.bucket as nat, l.bucket_bits as nat);
        assert(row.runs.skip(0) =~= row.runs);
        let rb = message::runs_bits(l, row.runs).push(false);
        assert(message::row_bits(l, row) =~= (seq![true] + f) + rb);
        lemma_at_split(s, pos, seq![true] + f, rb);
        lemma_at_split(s, pos, seq![true], f);
    }
}

pub proof fn lemma_parse_rows_inv(
    l: DeltaWireLayout,
    s: Seq<bool>,
    pos: nat,
    acc: Seq<message::Row>,
)
    requires
        layout_ok(l),
        message::rows_valid(l, acc),
    ensures
        message::parse_rows(l, s, pos, acc) matches Ok((rows, after)) ==> {
            &&& message::rows_valid(l, rows)
            &&& rows.len() >= acc.len()
            &&& rows.take(acc.len() as int) == acc
            &&& at(s, pos, message::rows_bits(l, rows.skip(acc.len() as int)).push(false))
            &&& after == pos + message::rows_bits(l, rows.skip(acc.len() as int)).len() + 1
        },
    decreases s.len() - pos,
{
    reveal(message::parse_rows);
    lemma_parse_row_inv(l, s, pos, acc);
    message::lemma_parse_row_advances(l, s, pos, acc);
    let n = acc.len() as int;
    match message::parse_row(l, s, pos, acc) {
        Err(_) => {},
        Ok(None) => {
            assert(acc.take(n) =~= acc);
            let e = acc.skip(n);
            assert(e =~= Seq::<message::Row>::empty());
            assert(message::rows_bits(l, e).push(false) =~= seq![false]);
        },
        Ok(Some((row, after))) => {
            let next = acc.push(row);
            assert(message::rows_valid(l, next)) by {
                assert forall|i: int, j: int| 0 <= i < j < next.len() implies next[i].bucket
                    < next[j].bucket by {
                    if j == n {
                        assert(acc.last() == acc[n - 1]);
                        assert(acc[i].bucket <= acc[n - 1].bucket);
                    } else {
                        assert(acc[i].bucket < acc[j].bucket);
                    }
                }
            }
            lemma_parse_rows_inv(l, s, after, next);
            if let Ok((rows, end)) = message::parse_rows(l, s, after, next) {
                assert(rows.take(n) =~= rows.take(n + 1).take(n));
                assert(next.take(n) =~= acc);
                assert(rows[n] == rows.take(n + 1)[n]);
                let rest = rows.skip(n);
                assert(rest.drop_first() =~= rows.skip(n + 1));
                assert(rest[0] == row);
                lemma_rows_bits_cons(l, rest);
                let rb = message::row_bits(l, row);
                let tail = message::rows_bits(l, rows.skip(n + 1)).push(false);
                assert(message::rows_bits(l, rest).push(false) =~= rb + tail);
                lemma_at_split(s, pos, rb, tail);
            }
        },
    }
}

/// A byte-aligned string that reads as a message is the padded bits of that message, and
/// the message is valid.
pub proof fn lemma_parse_message_inv(l: DeltaWireLayout, s: Seq<bool>)
    requires
        layout_ok(l),
        s.len() % 8 == 0,
    ensures
        message::parse_message(l, s) matches Ok((epoch, rows)) ==> message::rows_valid(l, rows) && s
            == bits::padded(message::message_bits(l, epoch, rows)),
{
    lemma_read_at(s, 0, 64);
    lemma2_to64();
    let none = Seq::<message::Row>::empty();
    assert(message::rows_valid(l, none));
    lemma_parse_rows_inv(l, s, 64, none);
    if let Ok((epoch, rows)) = message::parse_message(l, s) {
        let m = message::message_bits(l, epoch, rows);
        assert(rows.skip(0) =~= rows);
        let f = bits::field(epoch as nat, 64);
        let tail = message::rows_bits(l, rows).push(false);
        assert(m =~= f + tail);
        lemma_at_split(s, 0, f, tail);
        assert(at(s, 0, m));
        reveal(at);
        assert(s.subrange(0, m.len() as int) == m);
        assert forall|i: int| 0 <= i < s.len() implies s[i] == bits::padded(m)[i] by {
            if i < m.len() {
                assert(s.subrange(0, m.len() as int)[i] == s[i]);
            }
        }
        assert(s =~= bits::padded(m));
    }
}

} // verus!
