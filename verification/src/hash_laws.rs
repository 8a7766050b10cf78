//! How keywords, digests and candidate buckets depend on one another.
use vstd::arithmetic::div_mod::*;
use vstd::arithmetic::mul::*;
use vstd::arithmetic::power2::*;
use vstd::prelude::*;

use crate::backend::prg;
use crate::backend::prg::WordSource;
use crate::cuckoo_store::SegmentedCuckooMap;
use crate::hash;
use crate::hash::{IndexScheme, SegmentedScheme};
use crate::params::FilterParams;

verus! {

// ---------------------------------------------------------------- digests
/// Multiplying by an odd number modulo `2^64` loses nothing.
proof fn lemma_odd_factor(x: u64, y: u64, f: int, inverse: int, q: int)
    requires
        f * inverse == 1 + 0x1_0000_0000_0000_0000 * q,
        (x * f) % 0x1_0000_0000_0000_0000 == (y * f) % 0x1_0000_0000_0000_0000,
    ensures
        x == y,
{
    lemma_undone(x, f, inverse, q);
    lemma_undone(y, f, inverse, q);
}

proof fn lemma_undone(x: u64, f: int, inverse: int, q: int)
    requires
        f * inverse == 1 + 0x1_0000_0000_0000_0000 * q,
    ensures
        (((x * f) % 0x1_0000_0000_0000_0000) * inverse) % 0x1_0000_0000_0000_0000 == x,
{
    let m = 0x1_0000_0000_0000_0000int;
    lemma_mul_mod_noop_left(x * f, inverse, m);
    lemma_mul_is_associative(x as int, f, inverse);
    lemma_mul_is_distributive_add(x as int, 1, m * q);
    assert(x * (m * q) == m * (x * q)) by (nonlinear_arith);
    lemma_mod_multiples_vanish(x * q, x as int, m);
    lemma_small_mod(x as nat, m as nat);
}

/// The digest takes in a keyword byte by byte: with one more byte, it is the FNV-1a step of
/// the digest so far, however long the keyword is.
pub proof fn law_absorbed_step(key: Seq<u8>, c: u8)
    ensures
        hash::absorbed(Seq::<u8>::empty()) == 0xcbf2_9ce4_8422_2325u64,
        hash::absorbed(key.push(c)) == ((hash::absorbed(key) ^ (c as u64)) * 0x100_0000_01b3)
            % 0x1_0000_0000_0000_0000,
{
    assert(key.push(c).drop_last() =~= key);
}

/// Keywords that end in the same bytes have the same digest so far only if they had it before
/// those bytes.
proof fn lemma_same_tail(a: Seq<u8>, b: Seq<u8>, tail: Seq<u8>)
    requires
        hash::absorbed(a + tail) == hash::absorbed(b + tail),
    ensures
        hash::absorbed(a) == hash::absorbed(b),
    decreases tail.len(),
{
    if tail.len() == 0 {
        assert(a + tail =~= a);
        assert(b + tail =~= b);
    } else {
        let t = tail.drop_last();
        let c = tail.last();
        assert(a + tail =~= (a + t).push(c));
        assert(b + tail =~= (b + t).push(c));
        law_absorbed_step(a + t, c);
        law_absorbed_step(b + t, c);
        let x = hash::absorbed(a + t);
        let y = hash::absorbed(b + t);
        let z = c as u64;
        lemma_odd_factor(x ^ z, y ^ z, 0x100_0000_01b3, 0xce96_5057_aff6_957b, 887285111055);
        assert(x == y) by (bit_vector)
            requires
                x ^ z == y ^ z,
        ;
        lemma_same_tail(a, b, t);
    }
}

/// Every byte of a keyword takes part in its digest: changing one byte, wherever it stands,
/// changes the digest, before the mixing and after it.
pub proof fn law_every_byte_counts(key: Seq<u8>, i: int, c: u8)
    requires
        0 <= i < key.len(),
        key[i] != c,
    ensures
        hash::absorbed(key.update(i, c)) != hash::absorbed(key),
        hash::digest(key.update(i, c)) != hash::digest(key),
{
    let other = key.update(i, c);
    let head = key.take(i);
    let tail = key.skip(i + 1);
    assert(key =~= head.push(key[i]) + tail);
    assert(other =~= head.push(c) + tail);
    if hash::absorbed(other) == hash::absorbed(key) {
        lemma_same_tail(head.push(c), head.push(key[i]), tail);
        law_absorbed_step(head, c);
        law_absorbed_step(head, key[i]);
        let d = hash::absorbed(head);
        let x = c as u64;
        let y = key[i] as u64;
        lemma_odd_factor(d ^ x, d ^ y, 0x100_0000_01b3, 0xce96_5057_aff6_957b, 887285111055);
        assert(x == y) by (bit_vector)
            requires
                d ^ x == d ^ y,
        ;
    }
    law_mixing_loses_nothing(other, key);
}

/// Appending a byte, whatever it is, decides the digest together with the digest so far: two
/// keywords that end alike have equal digests if and only if they had them before the end.
pub proof fn law_equal_ends(a: Seq<u8>, b: Seq<u8>, tail: Seq<u8>)
    ensures
        hash::digest(a + tail) == hash::digest(b + tail) <==> hash::digest(a) == hash::digest(b),
{
    law_mixing_loses_nothing(a, b);
    law_mixing_loses_nothing(a + tail, b + tail);
    if hash::absorbed(a) == hash::absorbed(b) {
        lemma_same_start(a, b, tail);
    }
    if hash::absorbed(a + tail) == hash::absorbed(b + tail) {
        lemma_same_tail(a, b, tail);
    }
}

proof fn lemma_same_start(a: Seq<u8>, b: Seq<u8>, tail: Seq<u8>)
    requires
        hash::absorbed(a) == hash::absorbed(b),
    ensures
        hash::absorbed(a + tail) == hash::absorbed(b + tail),
    decreases tail.len(),
{
    if tail.len() == 0 {
        assert(a + tail =~= a);
        assert(b + tail =~= b);
    } else {
        let t = tail.drop_last();
        lemma_same_start(a, b, t);
        assert(a + tail =~= (a + t).push(tail.last()));
        assert(b + tail =~= (b + t).push(tail.last()));
        law_absorbed_step(a + t, tail.last());
        law_absorbed_step(b + t, tail.last());
    }
}

proof fn lemma_fold_undone(x: u64, y: u64)
    requires
        x ^ (x >> 33u64) == y ^ (y >> 33u64),
    ensures
        x == y,
{
    assert(x == y) by (bit_vector)
        requires
            x ^ (x >> 33u64) == y ^ (y >> 33u64),
    ;
}

/// The final mixing is one to one: it gives different digests to keywords whose bytes were
/// taken in to different values, and only to those.
pub proof fn law_mixing_loses_nothing(a: Seq<u8>, b: Seq<u8>)
    ensures
        hash::digest(a) == hash::digest(b) <==> hash::absorbed(a) == hash::absorbed(b),
{
    if hash::digest(a) == hash::digest(b) {
        let x0 = hash::absorbed(a);
        let y0 = hash::absorbed(b);
        let x1 = hash::mix_round(x0, hash::MIX_FIRST);
        let y1 = hash::mix_round(y0, hash::MIX_FIRST);
        let x2 = hash::mix_round(x1, hash::MIX_SECOND);
        let y2 = hash::mix_round(y1, hash::MIX_SECOND);
        lemma_fold_undone(x2, y2);
        lemma_odd_factor(
            x1 ^ (x1 >> 33u64),
            y1 ^ (y1 >> 33u64),
            0xc4ce_b9fe_1a85_ec53,
            0x9cb4_b2f8_1293_37db,
            8680939279959119233,
        );
        lemma_fold_undone(x1, y1);
        lemma_odd_factor(
            x0 ^ (x0 >> 33u64),
            y0 ^ (y0 >> 33u64),
            0xff51_afd7_ed55_8ccd,
            0x4f74_430c_22a5_4005,
            5710046619856821070,
        );
        lemma_fold_undone(x0, y0);
    }
}

// ---------------------------------------------------------------- fingerprints and candidates
/// Fingerprints go by the lower half of the digest: they are never zero, have the width asked
/// for, and agree exactly where the lower halves agree modulo the number of fingerprints.
pub proof fn law_fingerprints(a: Seq<u8>, b: Seq<u8>, fingerprint_bits: u32)
    requires
        1 <= fingerprint_bits <= 32,
    ensures
        1 <= hash::tag(a, fingerprint_bits) < pow2(fingerprint_bits as nat),
        hash::tag(a, fingerprint_bits) == hash::tag(b, fingerprint_bits) <==> (hash::digest(a)
            as int % 0x1_0000_0000) % (pow2(fingerprint_bits as nat) - 1) == (hash::digest(b) as int
            % 0x1_0000_0000) % (pow2(fingerprint_bits as nat) - 1),
{
    lemma2_to64();
    if fingerprint_bits < 32 {
        lemma_pow2_strictly_increases(fingerprint_bits as nat, 32);
    }
    if fingerprint_bits > 1 {
        lemma_pow2_strictly_increases(1, fingerprint_bits as nat);
    }
    let m = pow2(fingerprint_bits as nat) - 1;
    lemma_mod_bound(hash::digest(a) as int % 0x1_0000_0000, m);
    lemma_mod_bound(hash::digest(b) as int % 0x1_0000_0000, m);
}

/// Candidate `j` lies in segment `j`, and its place there is, modulo the size of the segment,
/// the upper half of the digest moved on by a step that the fingerprint and `j` decide.
pub proof fn law_candidate_place(
    scheme: SegmentedScheme,
    key: Seq<u8>,
    fingerprint_bits: u32,
    j: int,
)
    requires
        2 <= scheme.degree <= 4,
        0 < scheme.segment_size,
        scheme.degree * scheme.segment_size <= u32::MAX,
        1 <= fingerprint_bits <= 32,
        0 <= j < scheme.degree,
    ensures
        ({
            let seg = scheme.segment_size as int;
            let spot = scheme.index_of(key, fingerprint_bits, j);
            let apart: int = if j == 0 {
                0
            } else if j == 1 {
                0x9E37_79B1
            } else if j == 2 {
                0x85EB_CA77
            } else {
                0xC2B2_AE3D
            };
            let tag = scheme.tag_of(key, fingerprint_bits) as int;
            &&& j * seg <= spot < (j + 1) * seg
            &&& (spot - j * seg) == (hash::digest(key) as int / 0x1_0000_0000 + (tag * apart)
                / 0x1_0000) % seg
            &&& tag == 1 + (hash::digest(key) as int % 0x1_0000_0000) % (pow2(
                fingerprint_bits as nat,
            ) - 1)
        }),
{
    let seg = scheme.segment_size as int;
    scheme.lemma_candidates(key, fingerprint_bits);
    law_fingerprints(key, key, fingerprint_bits);
    let tag = hash::tag(key, fingerprint_bits);
    let high = hash::digest(key) as int / 0x1_0000_0000;
    let step = tag * hash::factor(j) / 0x1_0000;
    lemma_add_mod_noop(high, step, seg);
    lemma_mod_bound(high % seg + step % seg, seg);
    let local = (high % seg + step % seg) % seg;
    assert(local == hash::placed(hash::base(key, seg), tag, j, seg));
    assert(0 <= j * seg && (j + 1) * seg <= scheme.degree * seg && (j + 1) * seg == j * seg + seg)
        by (nonlinear_arith)
        requires
            0 <= j,
            j + 1 <= scheme.degree,
            seg > 0,
    ;
    lemma_mod_bound(
        hash::digest(key) as int % 0x1_0000_0000,
        pow2(fingerprint_bits as nat) - 1,
    );
    lemma2_to64();
    if fingerprint_bits < 32 {
        lemma_pow2_strictly_increases(fingerprint_bits as nat, 32);
    }
}

/// Client and server agree: what a client derives from a keyword and the segmented parameters
/// is what the server's scheme, of the same number of segments and the same buckets per
/// segment, gives for the keyword.
pub proof fn law_client_and_server_agree(params: FilterParams, key: Seq<u8>, j: int)
    requires
        params.arity.segmented(),
        0 <= j < params.arity.spec_degree(),
    ensures
        ({
            let scheme = SegmentedScheme {
                degree: params.arity.spec_degree(),
                segment_size: params.spec_seg(),
            };
            &&& hash::candidate(key, params, j) == scheme.index_of(key, params.fingerprint_bits, j)
            &&& hash::tag(key, params.fingerprint_bits) == scheme.tag_of(
                key,
                params.fingerprint_bits,
            )
        }),
{
}

/// The candidates and the fingerprint that a client derives are those under which a map of
/// the same parameters keeps the keyword.
pub proof fn law_client_finds_the_map(
    map: SegmentedCuckooMap<SegmentedScheme>,
    key: Seq<u8>,
    j: int,
)
    requires
        map.wf(),
        0 <= j < map.spec_params().arity.spec_degree(),
    ensures
        map.buckets_of(key).len() == map.spec_params().arity.spec_degree(),
        hash::candidate(key, map.spec_params(), j) == map.buckets_of(key)[j],
        hash::tag(key, map.spec_params().fingerprint_bits) == map.tag_of(key),
{
    law_client_and_server_agree(map.spec_params(), key, j);
    assert(map.spec_scheme().degree == map.spec_params().arity.spec_degree());
    assert(map.spec_scheme().segment_size == map.spec_params().spec_seg());
}

// ---------------------------------------------------------------- cycling
/// Digits are added one by one: the last digit of the sum is the sum of the last digits, and
/// the others are the sum of the others.
pub proof fn law_digits_add(x: nat, y: nat, b: nat)
    requires
        b >= 2,
    ensures
        hash::digit_sum(x, y, b) % b == (x % b + y % b) % b,
        hash::digit_sum(x, y, b) / b == hash::digit_sum(x / b, y / b, b),
{
    let low = (x % b + y % b) % b;
    lemma_mod_bound((x % b + y % b) as int, b as int);
    if x == 0 && y == 0 {
        lemma_small_mod(0, b);
        lemma_basic_div(0, b as int);
    } else {
        let rest = hash::digit_sum(x / b, y / b, b);
        assert(hash::digit_sum(x, y, b) == low + b * rest);
        lemma_mul_is_commutative(b as int, rest as int);
        lemma_fundamental_div_mod_converse(
            (low + b * rest) as int,
            b as int,
            rest as int,
            low as int,
        );
    }
}

/// The candidates without segments are steps of one size, taken digit by digit in the base of
/// the degree from the digest's bucket on, and cut down to the table.
pub proof fn law_standard_steps(key: Seq<u8>, params: FilterParams, j: int)
    requires
        !params.arity.segmented(),
        params.num_buckets > 0,
        0 <= j < params.arity.spec_degree(),
    ensures
        ({
            let n = params.num_buckets as int;
            let start = (hash::digest(key) as int / 0x1_0000_0000) % n;
            let tag = hash::tag(key, params.fingerprint_bits) as int;
            let step = ((tag * 0x9E37_79B1) / 0x1_0000) % n;
            let degree = params.arity.spec_degree() as nat;
            &&& hash::candidate(key, params, 0) == start
            &&& hash::candidate(key, params, j) == hash::cycled(
                start as nat,
                step as nat,
                j as nat,
                degree,
            ) as int % n
            &&& hash::cycled(start as nat, step as nat, (j + 1) as nat, degree) == hash::digit_sum(
                hash::cycled(start as nat, step as nat, j as nat, degree),
                step as nat,
                degree,
            )
        }),
{
    let n = params.num_buckets as int;
    let start = (hash::digest(key) as int / 0x1_0000_0000) % n;
    let tag = hash::tag(key, params.fingerprint_bits) as int;
    let step = ((tag * 0x9E37_79B1) / 0x1_0000) % n;
    lemma_mod_bound(hash::digest(key) as int / 0x1_0000_0000, n);
    lemma_mod_bound((tag * 0x9E37_79B1) / 0x1_0000, n);
    lemma_small_mod(start as nat, n as nat);
    let at = hash::cycled(start as nat, step as nat, j as nat, params.arity.spec_degree() as nat);
    lemma_mod_bound(at as int, n);
}

// ---------------------------------------------------------------- seeds
/// Derived seeds are stretches of the master seed's key stream, eight words each, one after
/// another and without a gap: word `w` of seed `j` is word `8 j + w` of the stream.
pub proof fn law_seeds_are_the_stream(seed_mu: Seq<u8>, j: int, w: int)
    requires
        0 <= j,
        0 <= w < 8,
    ensures
        hash::derived_seed(seed_mu, j).len() == 32,
        hash::derived_seed(seed_mu, j).subrange(4 * w, 4 * w + 4)
            == vstd::bytes::spec_u32_to_le_bytes(
            prg::keystream_word(seed_mu, (8 * j + w) as nat),
        ),
{
    vstd::bytes::lemma_auto_spec_u32_to_from_le_bytes();
    let bytes = vstd::bytes::spec_u32_to_le_bytes(
        prg::keystream_word(seed_mu, (8 * j + w) as nat),
    );
    let part = hash::derived_seed(seed_mu, j).subrange(4 * w, 4 * w + 4);
    assert forall|i: int| 0 <= i < 4 implies part[i] == bytes[i] by {
        assert((32 * j + 4 * w + i) / 4 == 8 * j + w);
        assert((32 * j + 4 * w + i) % 4 == i);
    }
    assert(part =~= bytes);
}

/// The words of a stretch of the key stream are those at their places, however long it is.
pub proof fn law_stretch_words(seed: Seq<u8>, pos: nat, len: nat, i: int)
    requires
        0 <= i < len,
    ensures
        prg::keystream(seed, pos, len).len() == len,
        prg::keystream(seed, pos, len)[i] == prg::keystream_word(seed, (pos + i) as nat),
{
}

/// A key stream gives its words in order, and starts again after `2^68` of them.
pub proof fn law_next_word(before: prg::Keystream, word: u32, after: prg::Keystream)
    requires
        before.gives(word, after),
    ensures
        word == prg::keystream_word(before.seed(), before.pos()),
        after.seed() == before.seed(),
        after.pos() == (before.pos() + 1) % 0x10_0000_0000_0000_0000,
{
}

} // verus!
