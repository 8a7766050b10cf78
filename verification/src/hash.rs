//! Candidate buckets of keywords, and the expansion of seeds.
use vstd::arithmetic::div_mod::*;
use vstd::arithmetic::power::*;
use vstd::arithmetic::power2::*;
use vstd::prelude::*;

use crate::backend::prg;
use crate::params::{FilterParams, SEED_LEN};

verus! {

// ---------------------------------------------------------------- seeds
/// The first `len` words of the key stream of a seed.
pub fn prg_u32_stream(seed: &[u8; SEED_LEN], len: usize) -> (out: Vec<u32>)
    ensures
        out@ == prg::keystream(seed@, 0, len as nat),
{
    let mut out: Vec<u32> = vec![0; len];
    prg::fill_words_seq(seed, out.as_mut_slice(), 0);
    out
}

/// Byte `n` of the key stream of a seed: the words, least significant byte first.
pub open spec fn keystream_byte(seed: Seq<u8>, n: int) -> u8 {
    vstd::bytes::spec_u32_to_le_bytes(prg::keystream_word(seed, (n / 4) as nat))[n % 4]
}

/// Seed `j` of the seeds that are derived from `seed_mu`: its own stretch of the key stream.
pub open spec fn derived_seed(seed_mu: Seq<u8>, j: int) -> Seq<u8> {
    Seq::new(32, |i: int| keystream_byte(seed_mu, 32 * j + i))
}

/// Writes the bytes of eight words.
fn seed_from_words(words: &[u32], at: usize) -> (seed: [u8; SEED_LEN])
    requires
        at + 8 <= words@.len(),
    ensures
        forall|i: int|
            0 <= i < 32 ==> #[trigger] seed@[i] == vstd::bytes::spec_u32_to_le_bytes(
                words@[at + i / 4],
            )[i % 4],
{
    let mut seed: [u8; SEED_LEN] = [0;SEED_LEN];
    let mut w: usize = 0;
    assert(words.len() == words@.len());
    while w < 8
        invariant
            w <= 8,
            at + 8 <= words@.len() <= usize::MAX,
            forall|i: int|
                0 <= i < 4 * w ==> #[trigger] seed@[i] == vstd::bytes::spec_u32_to_le_bytes(
                    words@[at + i / 4],
                )[i % 4],
        decreases 8 - w,
    {
        let bytes: Vec<u8> = vstd::bytes::u32_to_le_bytes(words[at + w]);
        seed[4 * w] = bytes[0];
        seed[4 * w + 1] = bytes[1];
        seed[4 * w + 2] = bytes[2];
        seed[4 * w + 3] = bytes[3];
        w = w + 1;
    }
    seed
}

/// Derives `k` seeds from a master seed.
pub fn derive_segment_seeds(seed_mu: &[u8; SEED_LEN], k: u32) -> (seeds: Vec<[u8; SEED_LEN]>)
    requires
        8 * k <= usize::MAX,
    ensures
        seeds@.len() == k,
        forall|j: int| 0 <= j < k ==> (#[trigger] seeds@[j])@ == derived_seed(seed_mu@, j),
{
    let n: usize = k as usize;
    let words: Vec<u32> = prg_u32_stream(seed_mu, 8 * n);
    let mut seeds: Vec<[u8; SEED_LEN]> = Vec::with_capacity(n);
    let mut j: usize = 0;
    while j < n
        invariant
            j <= n,
            8 * n <= usize::MAX,
            words@ == prg::keystream(seed_mu@, 0, (8 * n) as nat),
            seeds@.len() == j,
            forall|x: int| 0 <= x < j ==> (#[trigger] seeds@[x])@ == derived_seed(seed_mu@, x),
        decreases n - j,
    {
        let seed: [u8; SEED_LEN] = seed_from_words(words.as_slice(), 8 * j);
        proof {
            assert forall|i: int| 0 <= i < 32 implies #[trigger] seed@[i] == keystream_byte(
                seed_mu@,
                32 * j + i,
            ) by {
                assert((32 * j + i) / 4 == 8 * j + i / 4);
                assert((32 * j + i) % 4 == i % 4);
            }
            assert(seed@ =~= derived_seed(seed_mu@, j as int));
        }
        seeds.push(seed);
        j = j + 1;
    }
    seeds
}

// ---------------------------------------------------------------- digests
/// Start value of the digest.
pub const DIGEST_START: u64 = 0xcbf2_9ce4_8422_2325;

/// Multiplier of the digest.
pub const DIGEST_FACTOR: u64 = 0x0000_0100_0000_01b3;

/// First multiplier of the final mixing.
pub const MIX_FIRST: u64 = 0xff51_afd7_ed55_8ccd;

/// Second multiplier of the final mixing.
pub const MIX_SECOND: u64 = 0xc4ce_b9fe_1a85_ec53;

/// The FNV-1a digest of a keyword.
pub open spec fn absorbed(key: Seq<u8>) -> u64
    decreases key.len(),
{
    if key.len() == 0 {
        DIGEST_START
    } else {
        ((absorbed(key.drop_last()) ^ (key.last() as u64)) * DIGEST_FACTOR
            % 0x1_0000_0000_0000_0000) as u64
    }
}

/// One round of mixing: the upper bits are folded into the lower ones and multiplied up.
pub open spec fn mix_round(d: u64, factor: u64) -> u64 {
    ((d ^ (d >> 33u64)) * factor % 0x1_0000_0000_0000_0000) as u64
}

/// The digest of a keyword, mixed so that all of its bits depend on all of the keyword.
pub open spec fn digest(key: Seq<u8>) -> u64 {
    let d = mix_round(mix_round(absorbed(key), MIX_FIRST), MIX_SECOND);
    d ^ (d >> 33u64)
}

fn digest_of(key: &[u8]) -> (d: u64)
    ensures
        d == digest(key@),
{
    let a: u64 = absorb(key);
    let b: u64 = (a ^ (a >> 33u64)).wrapping_mul(MIX_FIRST);
    let c: u64 = (b ^ (b >> 33u64)).wrapping_mul(MIX_SECOND);
    c ^ (c >> 33u64)
}

fn absorb(key: &[u8]) -> (d: u64)
    ensures
        d == absorbed(key@),
{
    let mut d: u64 = DIGEST_START;
    let mut i: usize = 0;
    proof {
        assert(key@.take(0) =~= Seq::empty());
    }
    while i < key.len()
        invariant
            i <= key@.len(),
            d == absorbed(key@.take(i as int)),
        decreases key@.len() - i,
    {
        proof {
            assert(key@.take(i as int + 1).drop_last() =~= key@.take(i as int));
        }
        d = (d ^ (key[i] as u64)).wrapping_mul(DIGEST_FACTOR);
        i = i + 1;
    }
    proof {
        assert(key@.take(key@.len() as int) =~= key@);
    }
    d
}

/// Whether fingerprints can have this many bits.
pub open spec fn fp_bits_ok(fingerprint_bits: u32) -> bool {
    1 <= fingerprint_bits <= 32
}

/// The fingerprint of a keyword: from 1 to `2^fingerprint_bits - 1`.
pub open spec fn tag(key: Seq<u8>, fingerprint_bits: u32) -> u32 {
    (1 + (digest(key) as int % 0x1_0000_0000) % (pow2(fingerprint_bits as nat) - 1)) as u32
}

/// Where the candidates of a keyword start from, in a range of `range` buckets.
pub open spec fn base(key: Seq<u8>, range: int) -> int {
    (digest(key) as int / 0x1_0000_0000) % range
}

/// Factor that sets candidate `j` apart.
pub open spec fn factor(j: int) -> int {
    if j == 0 {
        0
    } else if j == 1 {
        0x9E37_79B1
    } else if j == 2 {
        0x85EB_CA77
    } else {
        0xC2B2_AE3D
    }
}

/// How far candidate `j` of a fingerprint lies from the start, in a range of `range` buckets.
pub open spec fn shift(tag: u32, j: int, range: int) -> int {
    (tag * factor(j) / 0x1_0000) % range
}

/// Candidate `j` that starts from `start`.
pub open spec fn placed(start: int, tag: u32, j: int, range: int) -> int {
    (start + shift(tag, j, range)) % range
}

fn shift_of(tag: u32, j: u32, range: u32) -> (d: u32)
    requires
        range > 0,
    ensures
        d == shift(tag, j as int, range as int),
        d < range,
{
    let f: u64 = match j {
        0 => 0,
        1 => 0x9E37_79B1,
        2 => 0x85EB_CA77,
        _ => 0xC2B2_AE3D,
    };
    proof {
        assert(0 <= tag * f <= u32::MAX * u32::MAX) by (nonlinear_arith)
            requires
                0 <= tag <= u32::MAX,
                0 <= f <= u32::MAX,
        ;
    }
    (((tag as u64) * f / 0x1_0000) % (range as u64)) as u32
}

fn place(start: u32, tag: u32, j: u32, range: u32) -> (x: u32)
    requires
        range > 0,
        start < range,
    ensures
        x == placed(start as int, tag, j as int, range as int),
        x < range,
{
    let d: u32 = shift_of(tag, j, range);
    ((start as u64 + d as u64) % (range as u64)) as u32
}

fn tag_and_base(key: &[u8], fingerprint_bits: u32, range: u32) -> (r: (u32, u32))
    requires
        fp_bits_ok(fingerprint_bits),
        range > 0,
    ensures
        r.0 == tag(key@, fingerprint_bits),
        0 < r.0 < pow2(fingerprint_bits as nat),
        r.1 == base(key@, range as int),
        r.1 < range,
{
    let d: u64 = digest_of(key);
    proof {
        lemma2_to64();
        lemma2_to64_rest();
        if fingerprint_bits < 32 {
            lemma_pow2_strictly_increases(fingerprint_bits as nat, 32);
        }
        if fingerprint_bits > 1 {
            lemma_pow2_strictly_increases(1, fingerprint_bits as nat);
        }
        vstd::bits::lemma_u64_shl_is_mul(1, fingerprint_bits as u64);
    }
    let m: u64 = (1u64 << fingerprint_bits) - 1;
    let t: u32 = (1 + (d % 0x1_0000_0000) % m) as u32;
    let b: u32 = ((d / 0x1_0000_0000) % (range as u64)) as u32;
    (t, b)
}

// ---------------------------------------------------------------- index schemes
/// A rule that gives every keyword a fingerprint and one candidate bucket per segment, and
/// that finds the other candidates of an item from one of them and its fingerprint.
pub trait IndexScheme: Sized {
    /// Number of segments.
    spec fn degree(self) -> nat;

    /// Buckets per segment.
    spec fn segment(self) -> nat;

    /// Whether the scheme can be used.
    spec fn ok(self) -> bool;

    /// The fingerprint of a keyword.
    spec fn tag_of(self, key: Seq<u8>, fingerprint_bits: u32) -> u32;

    /// Candidate `j` of a keyword.
    spec fn index_of(self, key: Seq<u8>, fingerprint_bits: u32, j: int) -> u32;

    /// Candidate `j` of the item with fingerprint `tag` that has `index` among its
    /// candidates.
    spec fn alternate(self, index: u32, tag: u32, j: int) -> u32;

    /// There are 2, 3 or 4 segments, and their buckets can be numbered.
    proof fn lemma_shape(self)
        requires
            self.ok(),
        ensures
            2 <= self.degree() <= 4,
            0 < self.segment(),
            self.degree() * self.segment() <= u32::MAX,
    ;

    /// Fingerprints are not zero and have the given width; candidate `j` lies in segment
    /// `j`; and the candidates of a keyword are the alternates of each of them.
    proof fn lemma_candidates(self, key: Seq<u8>, fingerprint_bits: u32)
        requires
            self.ok(),
            fp_bits_ok(fingerprint_bits),
        ensures
            0 < self.tag_of(key, fingerprint_bits) < pow2(fingerprint_bits as nat),
            forall|j: int|
                0 <= j < self.degree() ==> j * self.segment() <= #[trigger] self.index_of(
                    key,
                    fingerprint_bits,
                    j,
                ) < (j + 1) * self.segment(),
            forall|j: int, i: int|
                0 <= j < self.degree() && 0 <= i < self.degree() ==> #[trigger] self.alternate(
                    self.index_of(key, fingerprint_bits, j),
                    self.tag_of(key, fingerprint_bits),
                    i,
                ) == self.index_of(key, fingerprint_bits, i),
    ;

    /// Alternate `j` lies in segment `j`; an index is among its own alternates; and every
    /// alternate has the same alternates.
    proof fn lemma_alternates(self, index: u32, tag: u32)
        requires
            self.ok(),
            index < self.degree() * self.segment(),
        ensures
            forall|j: int|
                0 <= j < self.degree() ==> j * self.segment() <= #[trigger] self.alternate(
                    index,
                    tag,
                    j,
                ) < (j + 1) * self.segment(),
            self.alternate(index, tag, index as int / self.segment() as int) == index,
            forall|j: int, i: int|
                0 <= j < self.degree() && 0 <= i < self.degree() ==> #[trigger] self.alternate(
                    self.alternate(index, tag, j),
                    tag,
                    i,
                ) == self.alternate(index, tag, i),
    ;

    /// Fingerprint and candidates of a keyword; places past the last segment hold zero.
    fn hash_item(&self, key: &[u8], fingerprint_bits: u32) -> (r: (u32, [u32; 4]))
        requires
            self.ok(),
            fp_bits_ok(fingerprint_bits),
        ensures
            r.0 == self.tag_of(key@, fingerprint_bits),
            forall|j: int|
                0 <= j < 4 ==> #[trigger] r.1@[j] == if j < self.degree() {
                    self.index_of(key@, fingerprint_bits, j)
                } else {
                    0
                },
    ;

    /// All candidates of the item with fingerprint `tag` that has `index` among its
    /// candidates; places past the last segment hold zero.
    fn all_indices(&self, index: u32, tag: u32) -> (r: [u32; 4])
        requires
            self.ok(),
            index < self.degree() * self.segment(),
        ensures
            forall|j: int|
                0 <= j < 4 ==> #[trigger] r@[j] == if j < self.degree() {
                    self.alternate(index, tag, j)
                } else {
                    0
                },
    ;
}

/// A scheme with equal segments: candidates start from a bucket that the digest gives and
/// are set apart by the fingerprint.
#[derive(Debug, Clone, Copy, PartialEq, Eq, Structural)]
pub struct SegmentedScheme {
    /// Number of segments.
    pub degree: u32,
    /// Buckets per segment.
    pub segment_size: u32,
}

/// Where the candidates of an item start from, one of which has place `local` in segment `p`.
pub open spec fn start_of(local: int, tag: u32, p: int, range: int) -> int {
    (local - shift(tag, p, range)) % range
}

proof fn lemma_shift(tag: u32, j: int, range: int)
    requires
        range > 0,
    ensures
        0 <= shift(tag, j, range) < range,
{
    lemma_mod_bound(tag * factor(j) / 0x1_0000, range);
}

/// A place and its start determine each other.
proof fn lemma_start(start: int, tag: u32, j: int, range: int)
    requires
        range > 0,
        0 <= start < range,
    ensures
        0 <= placed(start, tag, j, range) < range,
        start_of(placed(start, tag, j, range), tag, j, range) == start,
{
    let d = shift(tag, j, range);
    lemma_shift(tag, j, range);
    lemma_mod_bound(start + d, range);
    lemma_sub_mod_noop(start + d, d, range);
    lemma_sub_mod_noop((start + d) % range, d, range);
    lemma_mod_twice(start + d, range);
    lemma_small_mod(start as nat, range as nat);
}

proof fn lemma_place(local: int, tag: u32, p: int, range: int)
    requires
        range > 0,
        0 <= local < range,
    ensures
        0 <= start_of(local, tag, p, range) < range,
        placed(start_of(local, tag, p, range), tag, p, range) == local,
{
    let d = shift(tag, p, range);
    lemma_mod_bound(local - d, range);
    lemma_add_mod_noop(local - d, d, range);
    lemma_add_mod_noop((local - d) % range, d, range);
    lemma_mod_twice(local - d, range);
    lemma_small_mod(local as nat, range as nat);
}

/// A bucket lies in the segment that its number says.
proof fn lemma_bucket(j: int, local: int, range: int)
    requires
        range > 0,
        0 <= local < range,
        0 <= j,
    ensures
        0 <= j * range + local,
        (j + 1) * range == j * range + range,
        (j * range + local) / range == j,
        (j * range + local) % range == local,
{
    assert(0 <= j * range) by (nonlinear_arith)
        requires
            0 <= j,
            0 < range,
    ;
    assert((j + 1) * range == j * range + range) by (nonlinear_arith);
    lemma_fundamental_div_mod_converse(j * range + local, range, j, local);
}

/// Buckets of the segments before the last are numbered below the last one's.
proof fn lemma_bucket_bound(j: int, degree: int, range: int)
    requires
        0 <= j < degree,
        0 < range,
    ensures
        (j + 1) * range <= degree * range,
{
    assert((j + 1) * range <= degree * range) by (nonlinear_arith)
        requires
            j + 1 <= degree,
            0 < range,
    ;
}

impl IndexScheme for SegmentedScheme {
    open spec fn degree(self) -> nat {
        self.degree as nat
    }

    open spec fn segment(self) -> nat {
        self.segment_size as nat
    }

    open spec fn ok(self) -> bool {
        &&& 2 <= self.degree <= 4
        &&& 0 < self.segment_size
        &&& self.degree * self.segment_size <= u32::MAX
    }

    open spec fn tag_of(self, key: Seq<u8>, fingerprint_bits: u32) -> u32 {
        tag(key, fingerprint_bits)
    }

    open spec fn index_of(self, key: Seq<u8>, fingerprint_bits: u32, j: int) -> u32 {
        let range = self.segment_size as int;
        (j * range + placed(base(key, range), tag(key, fingerprint_bits), j, range)) as u32
    }

    open spec fn alternate(self, index: u32, tag: u32, j: int) -> u32 {
        let range = self.segment_size as int;
        let start = start_of(index as int % range, tag, index as int / range, range);
        (j * range + placed(start, tag, j, range)) as u32
    }

    proof fn lemma_shape(self) {
    }

    proof fn lemma_candidates(self, key: Seq<u8>, fingerprint_bits: u32) {
        let range = self.segment_size as int;
        let start = base(key, range);
        let t = tag(key, fingerprint_bits);
        lemma_mod_bound(digest(key) as int / 0x1_0000_0000, range);
        lemma2_to64();
        if fingerprint_bits < 32 {
            lemma_pow2_strictly_increases(fingerprint_bits as nat, 32);
        }
        if fingerprint_bits > 1 {
            lemma_pow2_strictly_increases(1, fingerprint_bits as nat);
        }
        lemma_mod_bound(
            digest(key) as int % 0x1_0000_0000,
            pow2(fingerprint_bits as nat) - 1,
        );
        assert forall|j: int| 0 <= j < self.degree() implies j * self.segment()
            <= #[trigger] self.index_of(key, fingerprint_bits, j) < (j + 1) * self.segment() by {
            lemma_start(start, t, j, range);
            lemma_bucket(j, placed(start, t, j, range), range);
            lemma_bucket_bound(j, self.degree as int, range);
        }
        assert forall|j: int, i: int|
            0 <= j < self.degree() && 0 <= i < self.degree() implies #[trigger] self.alternate(
            self.index_of(key, fingerprint_bits, j),
            self.tag_of(key, fingerprint_bits),
            i,
        ) == self.index_of(key, fingerprint_bits, i) by {
            lemma_start(start, t, j, range);
            lemma_bucket(j, placed(start, t, j, range), range);
            lemma_bucket_bound(j, self.degree as int, range);
        }
    }

    proof fn lemma_alternates(self, index: u32, tag: u32) {
        let range = self.segment_size as int;
        let p = index as int / range;
        let local = index as int % range;
        lemma_fundamental_div_mod(index as int, range);
        lemma_mod_bound(index as int, range);
        lemma_div_pos_is_pos(index as int, range);
        assert(p * range == range * p) by (nonlinear_arith);
        assert(p < self.degree) by (nonlinear_arith)
            requires
                p * range <= index,
                index < self.degree * range,
                range > 0,
        ;
        let start = start_of(local, tag, p, range);
        lemma_place(local, tag, p, range);
        assert forall|j: int| 0 <= j < self.degree() implies j * self.segment()
            <= #[trigger] self.alternate(index, tag, j) < (j + 1) * self.segment() by {
            lemma_start(start, tag, j, range);
            lemma_bucket(j, placed(start, tag, j, range), range);
            lemma_bucket_bound(j, self.degree as int, range);
        }
        assert forall|j: int, i: int|
            0 <= j < self.degree() && 0 <= i < self.degree() implies #[trigger] self.alternate(
            self.alternate(index, tag, j),
            tag,
            i,
        ) == self.alternate(index, tag, i) by {
            lemma_start(start, tag, j, range);
            lemma_bucket(j, placed(start, tag, j, range), range);
            lemma_bucket_bound(j, self.degree as int, range);
        }
    }

    fn hash_item(&self, key: &[u8], fingerprint_bits: u32) -> (r: (u32, [u32; 4])) {
        let range: u32 = self.segment_size;
        let (t, start): (u32, u32) = tag_and_base(key, fingerprint_bits, range);
        (t, spread(start, t, self.degree, range))
    }

    fn all_indices(&self, index: u32, tag: u32) -> (r: [u32; 4]) {
        let range: u32 = self.segment_size;
        let p: u32 = index / range;
        let local: u32 = index % range;
        proof {
            lemma_fundamental_div_mod(index as int, range as int);
            lemma_div_pos_is_pos(index as int, range as int);
            let pp = p as int;
            assert(pp * range == range * pp) by (nonlinear_arith);
            assert(pp < self.degree) by (nonlinear_arith)
                requires
                    pp * range <= index,
                    index < self.degree * range,
                    range > 0,
            ;
        }
        let d: u32 = shift_of(tag, p, range);
        let start: u32 = ((local as u64 + (range - d) as u64) % (range as u64)) as u32;
        proof {
            lemma_mod_add_multiples_vanish(local - d, range as int);
            assert(local as int + (range - d) == range + (local - d));
        }
        spread(start, tag, self.degree, range)
    }
}

/// One candidate per segment.
fn spread(start: u32, tag: u32, degree: u32, range: u32) -> (r: [u32; 4])
    requires
        2 <= degree <= 4,
        range > 0,
        start < range,
        degree * range <= u32::MAX,
    ensures
        forall|j: int|
            0 <= j < 4 ==> #[trigger] r@[j] == if j < degree {
                (j * range + placed(start as int, tag, j, range as int)) as u32
            } else {
                0
            },
{
    let mut r: [u32; 4] = [0, 0, 0, 0];
    let mut j: u32 = 0;
    while j < degree
        invariant
            j <= degree <= 4,
            range > 0,
            start < range,
            degree * range <= u32::MAX,
            forall|i: int|
                0 <= i < 4 ==> #[trigger] r@[i] == if i < j {
                    (i * range + placed(start as int, tag, i, range as int)) as u32
                } else {
                    0
                },
        decreases degree - j,
    {
        let local: u32 = place(start, tag, j, range);
        proof {
            lemma_bucket(j as int, local as int, range as int);
            lemma_bucket_bound(j as int, degree as int, range as int);
        }
        r[j as usize] = j * range + local;
        j = j + 1;
    }
    r
}

// ---------------------------------------------------------------- cycling
/// The sum of two numbers digit by digit, without carries, in the given base.
pub open spec fn digit_sum(x: nat, y: nat, b: nat) -> nat
    decreases x + y,
{
    if b < 2 || (x == 0 && y == 0) {
        0
    } else {
        proof {
            lemma_digits_shrink(x, y, b);
        }
        (x % b + y % b) % b + b * digit_sum(x / b, y / b, b)
    }
}

/// `h` added `j` times to `x`, digit by digit: adding it as often as the base says leads back
/// to `x`.
pub open spec fn cycled(x: nat, h: nat, j: nat, b: nat) -> nat
    decreases j,
{
    if j == 0 {
        x
    } else {
        digit_sum(cycled(x, h, (j - 1) as nat, b), h, b)
    }
}

/// Cutting off the lowest digit makes a number smaller.
pub proof fn lemma_digits_shrink(x: nat, y: nat, b: nat)
    requires
        b >= 2,
        x > 0 || y > 0,
    ensures
        x / b + y / b < x + y,
        x / b <= x,
        y / b <= y,
        x == b * (x / b) + x % b,
        y == b * (y / b) + y % b,
        x % b < b,
        y % b < b,
{
    lemma_fundamental_div_mod(x as int, b as int);
    lemma_fundamental_div_mod(y as int, b as int);
    assert(x / b <= x && y / b <= y && x / b + y / b < x + y) by (nonlinear_arith)
        requires
            b >= 2,
            x > 0 || y > 0,
            x == b * (x / b) + x % b,
            y == b * (y / b) + y % b,
            x % b >= 0,
            y % b >= 0,
    ;
}

/// The lowest digit of a sum and the rest of it.
proof fn lemma_digit_sum(x: nat, y: nat, b: nat)
    requires
        b >= 2,
    ensures
        digit_sum(x, y, b) % b == (x % b + y % b) % b,
        digit_sum(x, y, b) / b == digit_sum(x / b, y / b, b),
{
    let low = ((x % b + y % b) % b) as int;
    let rest = digit_sum(x / b, y / b, b) as int;
    if x == 0 && y == 0 {
        lemma_small_mod(0, b);
        lemma_div_basics(b as int);
        lemma_basic_div(0, b as int);
    } else {
        lemma_mod_bound((x % b + y % b) as int, b as int);
        assert(b * rest == rest * b) by (nonlinear_arith);
        lemma_fundamental_div_mod_converse(digit_sum(x, y, b) as int, b as int, rest, low);
    }
}

/// A digit-wise sum is at most the sum.
proof fn lemma_digit_sum_bound(x: nat, y: nat, b: nat)
    ensures
        digit_sum(x, y, b) <= x + y,
    decreases x + y,
{
    if b >= 2 && (x > 0 || y > 0) {
        lemma_digits_shrink(x, y, b);
        lemma_digit_sum_bound(x / b, y / b, b);
        lemma_mod_decreases((x % b + y % b) as nat, b);
        let rest = digit_sum(x / b, y / b, b);
        assert(b * rest <= b * (x / b) + b * (y / b)) by (nonlinear_arith)
            requires
                rest <= x / b + y / b,
                b >= 0,
        ;
    }
}

/// Adding digit by digit does not leave the numbers of `k` digits.
proof fn lemma_digit_sum_closed(x: nat, y: nat, b: nat, k: nat)
    requires
        b >= 2,
        x < pow(b as int, k),
        y < pow(b as int, k),
    ensures
        digit_sum(x, y, b) < pow(b as int, k),
    decreases k,
{
    lemma_pow0(b as int);
    if x > 0 || y > 0 {
        lemma_digits_shrink(x, y, b);
        reveal(pow);
        let m = pow(b as int, (k - 1) as nat);
        assert(x / b < m && y / b < m) by (nonlinear_arith)
            requires
                x < b * m,
                y < b * m,
                x == b * (x / b) + x % b,
                y == b * (y / b) + y % b,
                x % b >= 0,
                y % b >= 0,
                b >= 2,
        ;
        lemma_digit_sum_closed(x / b, y / b, b, (k - 1) as nat);
        lemma_mod_bound((x % b + y % b) as int, b as int);
        let rest = digit_sum(x / b, y / b, b) as int;
        assert(b * rest + b <= b * m) by (nonlinear_arith)
            requires
                rest + 1 <= m,
                b >= 0,
        ;
    }
}

/// The lowest digit of a cycle and the rest of it.
proof fn lemma_cycled_digits(x: nat, h: nat, j: nat, b: nat)
    requires
        b >= 2,
    ensures
        cycled(x, h, j, b) % b == (x % b + j * (h % b)) % b,
        cycled(x, h, j, b) / b == cycled(x / b, h / b, j, b),
    decreases j,
{
    let d = (h % b) as int;
    let m = b as int;
    if j == 0 {
        assert(0 * d == 0) by (nonlinear_arith);
        lemma_mod_twice(x as int, m);
    } else {
        let i = (j - 1) as nat;
        let c = cycled(x, h, i, b);
        lemma_cycled_digits(x, h, i, b);
        lemma_digit_sum(c, h, b);
        let t = x % b + i * d;
        assert(j * d == i * d + d) by (nonlinear_arith)
            requires
                j == i + 1,
        ;
        lemma_add_mod_noop(t, d, m);
        lemma_mod_twice(h as int, m);
        assert((t % m + d) % m == (t + d) % m);
    }
}

/// Adding a number as often as the base says, digit by digit, leads back to the start.
pub proof fn law_cycle_closes(x: nat, h: nat, b: nat)
    requires
        b >= 2,
    ensures
        cycled(x, h, b, b) == x,
    decreases x + h,
{
    let c = cycled(x, h, b, b);
    let d = (h % b) as int;
    let m = b as int;
    lemma_cycled_digits(x, h, b, b);
    lemma_mod_multiples_vanish(d, (x % b) as int, m);
    lemma_mod_twice(x as int, m);
    assert(m * d == b * d);
    assert(c % b == x % b) by {
        assert((x % b + b * d) % m == (m * d + x % b) % m);
    }
    lemma_fundamental_div_mod(c as int, m);
    lemma_fundamental_div_mod(x as int, m);
    if x == 0 && h == 0 {
        lemma_cycle_of_zero(b, b);
    } else {
        lemma_digits_shrink(x, h, b);
        law_cycle_closes(x / b, h / b, b);
    }
}

proof fn lemma_cycle_of_zero(j: nat, b: nat)
    ensures
        cycled(0, 0, j, b) == 0,
    decreases j,
{
    if j > 0 {
        lemma_cycle_of_zero((j - 1) as nat, b);
    }
}

/// Adds two numbers digit by digit.
fn digit_add(x: u64, y: u64, b: u64) -> (r: u64)
    requires
        b >= 2,
        x + y <= 0xff_ffff_ffff,
    ensures
        r == digit_sum(x as nat, y as nat, b as nat),
        r <= x + y,
    decreases x + y,
{
    proof {
        lemma_digit_sum_bound(x as nat, y as nat, b as nat);
    }
    if x == 0 && y == 0 {
        return 0;
    }
    proof {
        lemma_digits_shrink(x as nat, y as nat, b as nat);
    }
    let rest: u64 = digit_add(x / b, y / b, b);
    proof {
        let z = (x as nat % b as nat + y as nat % b as nat) as int;
        lemma_mod_bound(z, b as int);
    }
    (x % b + y % b) % b + b * rest
}

/// Candidate `j` without segments: from the start on, each candidate is the one before it plus
/// a number that the fingerprint gives, digit by digit in the base of the degree.
pub open spec fn standard_candidate(start: int, tag: u32, j: int, degree: nat, range: int) -> int {
    cycled(start as nat, shift(tag, 1, range) as nat, j as nat, degree) as int % range
}

/// The candidates without segments.
fn cycle(start: u32, tag: u32, degree: u32, range: u32) -> (r: [u32; 4])
    requires
        2 <= degree <= 4,
        start < range,
    ensures
        forall|j: int|
            0 <= j < 4 ==> #[trigger] r@[j] == if j < degree {
                standard_candidate(start as int, tag, j, degree as nat, range as int)
            } else {
                0
            },
        forall|j: int| 0 <= j < degree ==> #[trigger] r@[j] < range,
{
    let h: u32 = shift_of(tag, 1, range);
    let mut r: [u32; 4] = [0, 0, 0, 0];
    let mut at: u64 = start as u64;
    let mut j: u32 = 0;
    while j < degree
        invariant
            j <= degree <= 4,
            degree >= 2,
            start < range,
            h == shift(tag, 1, range as int),
            at == cycled(start as nat, h as nat, j as nat, degree as nat),
            at <= (j + 1) * 0xffff_ffff,
            forall|i: int|
                0 <= i < 4 ==> #[trigger] r@[i] == if i < j {
                    standard_candidate(start as int, tag, i, degree as nat, range as int)
                } else {
                    0
                },
            forall|i: int| 0 <= i < j ==> #[trigger] r@[i] < range,
        decreases degree - j,
    {
        r[j as usize] = (at % range as u64) as u32;
        at = digit_add(at, h as u64, degree as u64);
        j = j + 1;
    }
    r
}

/// On a table whose size is a power of the degree, the candidates without segments form a
/// cycle: each of them leads on to the next, and the last to the first.
pub proof fn law_standard_candidates_cycle(
    start: int,
    tag: u32,
    j: int,
    degree: nat,
    range: int,
    k: nat,
)
    requires
        2 <= degree,
        range == pow(degree as int, k),
        0 <= start < range,
        0 <= j < degree,
    ensures
        standard_candidate(start, tag, j, degree, range) == cycled(
            start as nat,
            shift(tag, 1, range) as nat,
            j as nat,
            degree,
        ),
        standard_candidate(
            start,
            tag,
            if j + 1 == degree {
                0
            } else {
                j + 1
            },
            degree,
            range,
        ) == digit_sum(
            standard_candidate(start, tag, j, degree, range) as nat,
            shift(tag, 1, range) as nat,
            degree,
        ),
{
    let h = shift(tag, 1, range) as nat;
    lemma_shift(tag, 1, range);
    lemma_cycle_closed(start as nat, h, j as nat, degree, k);
    lemma_cycle_closed(start as nat, h, (j + 1) as nat, degree, k);
    lemma_small_mod(cycled(start as nat, h, j as nat, degree), range as nat);
    lemma_small_mod(cycled(start as nat, h, (j + 1) as nat, degree), range as nat);
    lemma_small_mod(start as nat, range as nat);
    law_cycle_closes(start as nat, h, degree);
}

proof fn lemma_cycle_closed(x: nat, h: nat, j: nat, b: nat, k: nat)
    requires
        b >= 2,
        x < pow(b as int, k),
        h < pow(b as int, k),
    ensures
        cycled(x, h, j, b) < pow(b as int, k),
    decreases j,
{
    if j > 0 {
        lemma_cycle_closed(x, h, (j - 1) as nat, b, k);
        lemma_digit_sum_closed(cycled(x, h, (j - 1) as nat, b), h, b, k);
    }
}

// ---------------------------------------------------------------- candidates
/// Fingerprint and candidate buckets of a keyword.
#[derive(Debug, Clone, Copy)]
pub struct KeywordFootprint {
    /// The fingerprint, which is not zero.
    pub tag: u32,
    /// The candidates, from the first on; the rest is zero.
    pub indices: [u32; 4],
    /// Number of candidates.
    pub degree: u32,
}

impl KeywordFootprint {
    /// The candidates.
    pub fn slots(&self) -> (s: &[u32])
        requires
            self.degree <= 4,
        ensures
            s@ == self.indices@.take(self.degree as int),
    {
        let s: &[u32] = vstd::slice::slice_subrange(
            vstd::array::array_as_slice(&self.indices),
            0,
            self.degree as usize,
        );
        proof {
            assert(s@ =~= self.indices@.take(self.degree as int));
        }
        s
    }
}

/// Candidate `j` of a keyword under the given parameters.
pub open spec fn candidate(key: Seq<u8>, params: FilterParams, j: int) -> u32 {
    let t = tag(key, params.fingerprint_bits);
    if params.arity.segmented() {
        let range = params.spec_seg() as int;
        (j * range + placed(base(key, range), t, j, range)) as u32
    } else {
        let range = params.num_buckets as int;
        standard_candidate(base(key, range), t, j, params.arity.spec_degree() as nat, range) as u32
    }
}

/// Fingerprint and candidate buckets of a keyword.
pub fn candidates(key: &[u8], params: &FilterParams) -> (foot: KeywordFootprint)
    requires
        fp_bits_ok(params.fingerprint_bits),
        params.num_buckets >= params.arity.spec_degree(),
    ensures
        foot.tag == tag(key@, params.fingerprint_bits),
        foot.tag > 0,
        foot.degree == params.arity.spec_degree(),
        forall|j: int|
            0 <= j < 4 ==> #[trigger] foot.indices@[j] == if j < foot.degree {
                candidate(key@, *params, j)
            } else {
                0
            },
        forall|j: int| 0 <= j < foot.degree ==> #[trigger] foot.indices@[j] < params.num_buckets,
        params.arity.segmented() ==> forall|j: int|
            0 <= j < foot.degree ==> j * params.spec_seg() <= #[trigger] foot.indices@[j] < (j + 1)
                * params.spec_seg(),
{
    let degree: u32 = params.degree();
    if params.arity.is_segmented() {
        let range: u32 = params.seg();
        proof {
            lemma_fundamental_div_mod(params.num_buckets as int, degree as int);
            assert(range >= 1) by (nonlinear_arith)
                requires
                    range == params.num_buckets as int / degree as int,
                    params.num_buckets >= degree,
                    degree > 0,
            ;
        }
        let scheme = SegmentedScheme { degree, segment_size: range };
        let (t, indices): (u32, [u32; 4]) = scheme.hash_item(key, params.fingerprint_bits);
        proof {
            scheme.lemma_candidates(key@, params.fingerprint_bits);
            assert forall|j: int| 0 <= j < degree implies j * range <= #[trigger] indices@[j] < (j
                + 1) * range && indices@[j] < params.num_buckets by {
                let x = scheme.index_of(key@, params.fingerprint_bits, j);
                assert(indices@[j] == x);
                lemma_bucket_bound(j, degree as int, range as int);
            }
        }
        KeywordFootprint { tag: t, indices, degree }
    } else {
        let range: u32 = params.num_buckets;
        let (t, start): (u32, u32) = tag_and_base(key, params.fingerprint_bits, range);
        let indices: [u32; 4] = cycle(start, t, degree, range);
        KeywordFootprint { tag: t, indices, degree }
    }
}

/// The seeds that are derived from a master seed do not depend on how many are derived:
/// seed `j` is the same stretch of the key stream in either list.
pub proof fn law_seeds_prefix_stable(
    seed_mu: Seq<u8>,
    a: Seq<[u8; SEED_LEN]>,
    b: Seq<[u8; SEED_LEN]>,
    j: int,
)
    requires
        forall|i: int| 0 <= i < a.len() ==> (#[trigger] a[i])@ == derived_seed(seed_mu, i),
        forall|i: int| 0 <= i < b.len() ==> (#[trigger] b[i])@ == derived_seed(seed_mu, i),
        0 <= j < a.len(),
        j < b.len(),
    ensures
        a[j]@ == b[j]@,
{
    assert(a[j]@ == derived_seed(seed_mu, j));
    assert(b[j]@ == derived_seed(seed_mu, j));
}

} // verus!
