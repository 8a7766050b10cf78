//! Which violation is reported, wherever in a message it stands.
use vstd::arithmetic::power2::*;
use vstd::prelude::*;

use crate::bits;
use crate::wire::bit_io;
use crate::wire::codec;
use crate::wire::layout::DeltaWireLayout;
use crate::wire::message;
use crate::wire::WireError;

verus! {

/// How a message starts: its epoch, its first rows, and the bucket of the row after them.
pub struct Head {
    pub epoch: u64,
    pub rows: Seq<message::Row>,
    pub bucket: nat,
}

/// The bits up to the flag of the row.
pub open spec fn rows_part(l: DeltaWireLayout, h: Head) -> Seq<bool> {
    bits::field(h.epoch as nat, 64) + message::rows_bits(l, h.rows)
}

/// The bits up to the bucket of the row.
pub open spec fn head_bits(l: DeltaWireLayout, h: Head) -> Seq<bool> {
    rows_part(l, h) + (seq![true] + bits::field(h.bucket, l.bucket_bits as nat))
}

/// The bits up to the next run of the row.
pub open spec fn runs_part(l: DeltaWireLayout, h: Head, runs: Seq<message::Run>) -> Seq<bool> {
    if runs.len() == 0 {
        head_bits(l, h)
    } else {
        head_bits(l, h) + message::runs_bits(l, runs).push(true)
    }
}

/// The rows before are valid, and the bucket can be written.
pub open spec fn starts_well(l: DeltaWireLayout, h: Head) -> bool {
    &&& codec::layout_ok(l)
    &&& l.bucket_bits <= 32
    &&& l.offset_bits <= 31
    &&& l.plaintext_bits <= 62
    &&& message::rows_valid(l, h.rows)
    &&& h.bucket < pow2(l.bucket_bits as nat)
}

/// The bucket goes on in order.
pub open spec fn goes_on(l: DeltaWireLayout, h: Head) -> bool {
    &&& starts_well(l, h)
    &&& h.bucket < l.num_buckets
    &&& h.rows.len() > 0 ==> h.rows.last().bucket < h.bucket
}

/// Valid rows are passed over.
proof fn lemma_after_rows(l: DeltaWireLayout, s: Seq<bool>, rows: Seq<message::Row>)
    requires
        codec::layout_ok(l),
        message::rows_valid(l, rows),
        codec::at(s, 64, message::rows_bits(l, rows)),
    ensures
        message::parse_rows(l, s, 64, Seq::empty()) == message::parse_rows(
            l,
            s,
            64 + message::rows_bits(l, rows).len(),
            rows,
        ),
    decreases rows.len(),
{
    if rows.len() == 0 {
        assert(rows =~= Seq::<message::Row>::empty());
    } else {
        let init = rows.drop_last();
        let last = rows.last();
        let n = message::rows_bits(l, init).len();
        assert(rows[rows.len() - 1] == last);
        assert(message::rows_valid(l, init)) by {
            assert forall|i: int| 0 <= i < init.len() implies message::row_valid(
                l,
                #[trigger] init[i],
            ) by {
                assert(init[i] == rows[i]);
            }
        }
        codec::lemma_at_split(s, 64, message::rows_bits(l, init), message::row_bits(l, last));
        lemma_after_rows(l, s, init);
        if init.len() > 0 {
            assert(rows[init.len() - 1] == init.last());
        }
        codec::lemma_parse_row_ok(l, s, 64 + n, init, last);
        reveal(message::parse_rows);
        message::lemma_parse_row_advances(l, s, 64 + n, init);
        assert(init.push(last) =~= rows);
    }
}

/// Where the row starts.
proof fn lemma_head(l: DeltaWireLayout, s: Seq<bool>, h: Head)
    requires
        starts_well(l, h),
        codec::at(s, 0, head_bits(l, h)),
    ensures
        bit_io::read(s, 0, 64) == Some(h.epoch as nat),
        ({
            let p = rows_part(l, h).len();
            &&& message::parse_rows(l, s, 64, Seq::empty()) == message::parse_rows(l, s, p, h.rows)
            &&& bit_io::read(s, p, 1) == Some(1nat)
            &&& bit_io::read(s, p + 1, l.bucket_bits as nat) == Some(h.bucket)
        }),
{
    let f = bits::field(h.epoch as nat, 64);
    let r = message::rows_bits(l, h.rows);
    let b = bits::field(h.bucket, l.bucket_bits as nat);
    let p = rows_part(l, h).len();
    codec::lemma_at_split(s, 0, rows_part(l, h), seq![true] + b);
    codec::lemma_at_split(s, 0, f, r);
    codec::lemma_at_split(s, p, seq![true], b);
    lemma2_to64();
    codec::lemma_at_read(s, 0, h.epoch as nat, 64);
    codec::lemma_at_flag(s, p, true);
    codec::lemma_at_read(s, p + 1, h.bucket, l.bucket_bits as nat);
    lemma_after_rows(l, s, h.rows);
}

/// A bucket that does not exist is reported, whatever follows it; one that does not come after
/// the bucket of the row before is reported as out of order.
pub proof fn law_bad_bucket(l: DeltaWireLayout, s: Seq<bool>, h: Head)
    requires
        starts_well(l, h),
        codec::at(s, 0, head_bits(l, h)),
    ensures
        h.bucket >= l.num_buckets ==> message::parse_message(l, s) == Err::<
            (u64, Seq<message::Row>),
            WireError,
        >(WireError::BucketOutOfRange { bucket: h.bucket as u32 }),
        h.bucket < l.num_buckets && h.rows.len() > 0 && h.bucket <= h.rows.last().bucket
            ==> message::parse_message(l, s) == Err::<(u64, Seq<message::Row>), WireError>(
            WireError::NonCanonicalRows,
        ),
{
    lemma_head(l, s, h);
    reveal(message::parse_rows);
    reveal(message::parse_row);
}

/// Valid runs are passed over.
proof fn lemma_after_runs(l: DeltaWireLayout, s: Seq<bool>, pos: nat, runs: Seq<message::Run>)
    requires
        codec::layout_ok(l),
        message::runs_valid(l, runs),
        runs.len() > 0,
        codec::at(s, pos, message::runs_bits(l, runs).push(true)),
    ensures
        message::parse_runs(l, s, pos, Seq::empty()) == message::parse_runs(
            l,
            s,
            pos + message::runs_bits(l, runs).len() + 1,
            runs,
        ),
    decreases runs.len(),
{
    let init = runs.drop_last();
    let last = runs.last();
    let one = message::run_bits(l, last);
    assert(runs[runs.len() - 1] == last);
    assert(message::run_valid(l, last));
    assert(message::runs_valid(l, init)) by {
        assert forall|i: int| 0 <= i < init.len() implies message::run_valid(
            l,
            #[trigger] init[i],
        ) by {
            assert(init[i] == runs[i]);
        }
        assert forall|i: int| 1 <= i < init.len() implies (#[trigger] init[i]).start
            > message::run_end(init[i - 1]) + l.max_gap by {
            assert(init[i] == runs[i] && init[i - 1] == runs[i - 1]);
        }
    }
    reveal(message::parse_runs);
    codec::lemma_run_bits_len(l, last);
    assert(init.push(last) =~= runs);
    if init.len() == 0 {
        assert(runs[0] == last);
        assert(message::runs_bits(l, runs).push(true) =~= one + seq![true]);
        codec::lemma_at_split(s, pos, one, seq![true]);
        codec::lemma_at_flag(s, pos + one.len(), true);
        codec::lemma_parse_run_ok(l, s, pos, init, last);
        assert(init =~= Seq::<message::Run>::empty());
    } else {
        let before = message::runs_bits(l, init).push(true);
        assert(message::runs_bits(l, runs).push(true) =~= before + (one + seq![true]));
        codec::lemma_at_split(s, pos, before, one + seq![true]);
        let p = pos + before.len();
        codec::lemma_at_split(s, p, one, seq![true]);
        codec::lemma_at_flag(s, p + one.len(), true);
        lemma_after_runs(l, s, pos, init);
        assert(runs[init.len() - 1] == init.last());
        codec::lemma_parse_run_ok(l, s, p, init, last);
    }
}

/// An error in a run is that of the message.
proof fn lemma_run_error_is_reported(
    l: DeltaWireLayout,
    s: Seq<bool>,
    h: Head,
    runs: Seq<message::Run>,
    e: WireError,
)
    requires
        goes_on(l, h),
        message::runs_valid(l, runs),
        codec::at(s, 0, runs_part(l, h, runs)),
        message::parse_run(l, s, runs_part(l, h, runs).len(), runs) == Err::<
            message::Run,
            WireError,
        >(e),
    ensures
        message::parse_message(l, s) == Err::<(u64, Seq<message::Row>), WireError>(e),
{
    let p = head_bits(l, h).len();
    if runs.len() > 0 {
        codec::lemma_at_split(s, 0, head_bits(l, h), message::runs_bits(l, runs).push(true));
        lemma_after_runs(l, s, p, runs);
    } else {
        assert(runs =~= Seq::<message::Run>::empty());
    }
    lemma_head(l, s, h);
    reveal(message::parse_rows);
    reveal(message::parse_row);
    reveal(message::parse_runs);
}

/// A run that starts past the row is reported with its start, and one that ends past the row
/// with its end; one that is too close to the run before is reported as out of form.
pub proof fn law_bad_run_place(
    l: DeltaWireLayout,
    s: Seq<bool>,
    h: Head,
    runs: Seq<message::Run>,
    start: nat,
    len: nat,
)
    requires
        goes_on(l, h),
        message::runs_valid(l, runs),
        start < pow2(l.offset_bits as nat),
        1 <= len <= pow2(l.offset_bits as nat),
        codec::at(
            s,
            0,
            runs_part(l, h, runs) + (bits::field(start, l.offset_bits as nat) + bits::field(
                (len - 1) as nat,
                l.offset_bits as nat,
            )),
        ),
    ensures
        start >= l.row_width ==> message::parse_message(l, s) == Err::<
            (u64, Seq<message::Row>),
            WireError,
        >(WireError::OffsetOutOfRange { offset: start as u32 }),
        start < l.row_width && start + len > l.row_width ==> message::parse_message(l, s) == Err::<
            (u64, Seq<message::Row>),
            WireError,
        >(WireError::OffsetOutOfRange { offset: (start + len) as u32 }),
        start + len <= l.row_width && runs.len() > 0 && start <= message::run_end(runs.last())
            + l.max_gap ==> message::parse_message(l, s) == Err::<
            (u64, Seq<message::Row>),
            WireError,
        >(WireError::NonCanonicalRuns),
{
    let ow = l.offset_bits as nat;
    let a = bits::field(start, ow);
    let b = bits::field((len - 1) as nat, ow);
    let p = runs_part(l, h, runs).len();
    codec::lemma_at_split(s, 0, runs_part(l, h, runs), a + b);
    codec::lemma_at_split(s, p, a, b);
    codec::lemma_at_read(s, p, start, ow);
    codec::lemma_at_read(s, p + ow, (len - 1) as nat, ow);
    reveal(message::parse_run);
    if let Err(e) = message::parse_run(l, s, p, runs) {
        lemma_run_error_is_reported(l, s, h, runs, e);
    }
}

/// Deltas that can be written are passed over.
proof fn lemma_after_deltas(
    l: DeltaWireLayout,
    s: Seq<bool>,
    pos: nat,
    start: int,
    len: nat,
    d: Seq<int>,
)
    requires
        codec::layout_ok(l),
        d.len() <= len,
        forall|i: int|
            0 <= i < d.len() ==> -message::modulus(l) < #[trigger] d[i] < message::modulus(l),
        start + d.len() <= 0x1_0000,
        codec::at(s, pos, message::deltas_bits(l, d)),
    ensures
        message::parse_deltas(l, s, pos, start, len, Seq::empty()) == message::parse_deltas(
            l,
            s,
            pos + message::deltas_bits(l, d).len(),
            start,
            len,
            d,
        ),
        message::deltas_bits(l, d).len() == d.len() * l.delta_bits,
    decreases d.len(),
{
    if d.len() == 0 {
        assert(d =~= Seq::<int>::empty());
        assert(0 * l.delta_bits == 0) by (nonlinear_arith);
    } else {
        let init = d.drop_last();
        let x = d.last();
        let w = l.delta_bits as nat;
        let f = bits::field(message::code(l, x), w);
        let n = message::deltas_bits(l, init).len();
        assert(d[d.len() - 1] == x);
        assert forall|i: int| 0 <= i < init.len() implies -message::modulus(l) < #[trigger] init[i]
            < message::modulus(l) by {
            assert(init[i] == d[i]);
        }
        codec::lemma_at_split(s, pos, message::deltas_bits(l, init), f);
        lemma_after_deltas(l, s, pos, start, len, init);
        lemma_pow2_unfold(w);
        codec::lemma_at_read(s, pos + n, message::code(l, x), w);
        reveal(message::parse_deltas);
        assert(init.push(x) =~= d);
        assert(d.len() * w == (d.len() - 1) * w + w) by (nonlinear_arith);
    }
}

/// The code that stands for no delta is reported with its number, however many deltas stand
/// before it in the run.
pub proof fn law_bad_delta(
    l: DeltaWireLayout,
    s: Seq<bool>,
    h: Head,
    runs: Seq<message::Run>,
    start: nat,
    len: nat,
    d: Seq<int>,
)
    requires
        goes_on(l, h),
        message::runs_valid(l, runs),
        1 <= len,
        start + len <= l.row_width,
        start + d.len() <= 0x1_0000,
        d.len() < len,
        runs.len() > 0 ==> start > message::run_end(runs.last()) + l.max_gap,
        forall|i: int|
            0 <= i < d.len() ==> -message::modulus(l) < #[trigger] d[i] < message::modulus(l),
        codec::at(
            s,
            0,
            runs_part(l, h, runs) + ((bits::field(start, l.offset_bits as nat) + bits::field(
                (len - 1) as nat,
                l.offset_bits as nat,
            )) + (message::deltas_bits(l, d) + bits::field(
                (2 * pow2(l.plaintext_bits as nat) - 1) as nat,
                l.delta_bits as nat,
            ))),
        ),
    ensures
        message::parse_message(l, s) == Err::<(u64, Seq<message::Row>), WireError>(
            WireError::DeltaOutOfRange {
                code: (2 * pow2(l.plaintext_bits as nat) - 1) as u64,
            },
        ),
{
    let ow = l.offset_bits as nat;
    let w = l.delta_bits as nat;
    let a = bits::field(start, ow);
    let b = bits::field((len - 1) as nat, ow);
    let db = message::deltas_bits(l, d);
    let bad = (2 * pow2(l.plaintext_bits as nat) - 1) as nat;
    let c = bits::field(bad, w);
    let p = runs_part(l, h, runs).len();
    codec::lemma_at_split(s, 0, runs_part(l, h, runs), (a + b) + (db + c));
    codec::lemma_at_split(s, p, a + b, db + c);
    codec::lemma_at_split(s, p, a, b);
    codec::lemma_at_split(s, p + 2 * ow, db, c);
    codec::lemma_at_read(s, p, start, ow);
    codec::lemma_at_read(s, p + ow, (len - 1) as nat, ow);
    lemma_after_deltas(l, s, p + 2 * ow, start as int, len, d);
    lemma_pow2_unfold(w);
    lemma_pow2_pos(l.plaintext_bits as nat);
    codec::lemma_at_read(s, p + 2 * ow + db.len(), bad, w);
    reveal(message::parse_deltas);
    reveal(message::parse_run);
    lemma_run_error_is_reported(
        l,
        s,
        h,
        runs,
        WireError::DeltaOutOfRange { code: bad as u64 },
    );
}

/// A run that starts or ends with a zero, or bridges a longer gap than another run would cost, is
/// reported as out of form.
pub proof fn law_loose_run(
    l: DeltaWireLayout,
    s: Seq<bool>,
    h: Head,
    runs: Seq<message::Run>,
    start: nat,
    d: Seq<int>,
    i: int,
    k: int,
)
    requires
        goes_on(l, h),
        message::runs_valid(l, runs),
        d.len() > 0,
        start + d.len() <= l.row_width,
        start + d.len() <= 0x1_0000,
        runs.len() > 0 ==> start > message::run_end(runs.last()) + l.max_gap,
        forall|x: int|
            0 <= x < d.len() ==> -message::modulus(l) < #[trigger] d[x] < message::modulus(l),
        d[0] == 0 || d.last() == 0 || (0 <= i <= k <= d.len() && k - i > l.max_gap && forall|x: int|
            i <= x < k ==> #[trigger] d[x] == 0),
        codec::at(
            s,
            0,
            runs_part(l, h, runs) + ((bits::field(start, l.offset_bits as nat) + bits::field(
                (d.len() - 1) as nat,
                l.offset_bits as nat,
            )) + message::deltas_bits(l, d)),
        ),
    ensures
        message::parse_message(l, s) == Err::<(u64, Seq<message::Row>), WireError>(
            WireError::NonCanonicalRuns,
        ),
{
    let ow = l.offset_bits as nat;
    let a = bits::field(start, ow);
    let b = bits::field((d.len() - 1) as nat, ow);
    let db = message::deltas_bits(l, d);
    let p = runs_part(l, h, runs).len();
    codec::lemma_at_split(s, 0, runs_part(l, h, runs), (a + b) + db);
    codec::lemma_at_split(s, p, a + b, db);
    codec::lemma_at_split(s, p, a, b);
    codec::lemma_at_read(s, p, start, ow);
    codec::lemma_at_read(s, p + ow, (d.len() - 1) as nat, ow);
    lemma_after_deltas(l, s, p + 2 * ow, start as int, d.len(), d);
    if 0 <= i <= k <= d.len() && k - i > l.max_gap && forall|x: int|
        i <= x < k ==> #[trigger] d[x] == 0 {
        lemma_zeros_count(d, i, k);
    }
    reveal(message::parse_deltas);
    reveal(message::parse_run);
    lemma_run_error_is_reported(l, s, h, runs, WireError::NonCanonicalRuns);
}

/// A stretch of zeros counts.
proof fn lemma_zeros_count(d: Seq<int>, i: int, k: int)
    requires
        0 <= i <= k <= d.len(),
        forall|x: int| i <= x < k ==> #[trigger] d[x] == 0,
    ensures
        message::longest_zeros(d) >= k - i,
        k == d.len() ==> message::trailing_zeros(d) >= k - i,
    decreases d.len(),
{
    if d.len() > 0 {
        let init = d.drop_last();
        if k < d.len() {
            lemma_zeros_count(init, i, k);
        } else if i < k {
            assert(d[k - 1] == 0);
            lemma_zeros_count(init, i, k - 1);
        }
    }
}

} // verus!
