//! The encoding of hint deltas.
use ikpir::backend::frodo::backend::FrodoPirBackend;
use ikpir::backend::frodo::params::FrodoConfig;
use ikpir::backend::IndexPirBackend;
use ikpir::geometry::{CuckooParams, SchemeKind};
use ikpir::wire::bit_io::{BitReader, BitWriter};
use ikpir::wire::bundles::{PirQueryBundle, PirResponseBundle, ServerSetupBundle};
use ikpir::wire::hint_delta::{HintDeltaBundle, SegmentRowDeltas};
use ikpir::wire::layout::DeltaWireLayout;
use ikpir::wire::WireError;
use rand::{Rng, SeedableRng};
use rand_chacha::ChaCha20Rng;

type Bundle = HintDeltaBundle<FrodoPirBackend>;

fn build(params: CuckooParams, epoch: u64, segs: Vec<SegmentRowDeltas>) -> Bundle {
    Bundle::new(epoch, segs, params)
}

fn delta_code(delta: i64, params: &CuckooParams) -> u64 {
    (delta + (1i64 << params.plaintext_bits) - 1) as u64
}

/// Hand-pack a sequence of `(value, width)` fields into a byte stream,
/// zero-padded to a byte boundary — used to craft intentionally
/// invalid streams `encode` could never itself produce.
fn raw_pack(fields: &[(u64, u32)]) -> Vec<u8> {
    let total_bits: usize = fields.iter().map(|(_, w)| *w as usize).sum();
    let byte_len = total_bits.div_ceil(8);
    let mut w = BitWriter::new(byte_len);
    for &(value, width) in fields {
        w.write_bits(value, width);
    }
    w.finish()
}

fn arity_of(scheme: SchemeKind) -> u32 {
    CuckooParams {
        scheme_kind: scheme,
        num_buckets: 0,
        bucket_size: 0,
        fingerprint_bits: 0,
        value_bits: 0,
        plaintext_bits: 0,
    }
    .arity() as u32
}

/// A small fixture with every ω a power of two (ρ = 4, ω = 4, OW = 2,
/// DB = 5, G = 1) — used by the hand-built round-trip / precondition
/// tests, where exact-power-of-two widths are harmless.
fn small_params(scheme: SchemeKind) -> CuckooParams {
    let arity = arity_of(scheme);
    CuckooParams {
        scheme_kind: scheme,
        num_buckets: arity * 4, // segment_size == 4 for every arity
        bucket_size: 2,
        fingerprint_bits: 4,
        value_bits: 4,
        plaintext_bits: 4,
    }
}

/// A fixture whose `n_b` and `ω` are deliberately *not* powers of two,
/// so their bit-field widths leave room for an out-of-range code point
/// — needed to craft `BucketOutOfRange` / `OffsetOutOfRange` streams.
/// `G == 0` here, which also gives the simplest possible "runs too
/// close" fixture.
fn odd_params() -> CuckooParams {
    CuckooParams {
        scheme_kind: SchemeKind::Segmented2ary,
        num_buckets: 6, // segment_size = 3, IB = bitlen(5) = 3 (2^3 = 8 > 6)
        bucket_size: 3, // cells_per_slot = 1 => ω = 3, OW = bitlen(2) = 2 (2^2 = 4 > 3)
        fingerprint_bits: 4,
        value_bits: 4,
        plaintext_bits: 8, // DB = 9, G = (2*2+1)/9 = 0
    }
}

fn params_with_pb(pb: u32) -> CuckooParams {
    CuckooParams {
        scheme_kind: SchemeKind::Segmented2ary,
        num_buckets: 8,
        bucket_size: 2,
        fingerprint_bits: 8,
        value_bits: 8,
        plaintext_bits: pb,
    }
}

#[test]
fn width_table_matches_paper_geometry() {
    struct Row {
        arity: SchemeKind,
        num_buckets: u32,
        bucket_size: u32,
        value_bits: u32,
        plaintext_bits: u32,
        expect_ib: u32,
        expect_ow: u32,
        expect_db: u32,
        expect_g: u32,
    }
    let fingerprint_bits = 64u32;
    let rows = [
        Row {
            arity: SchemeKind::Segmented2ary,
            num_buckets: 1 << 18,
            bucket_size: 4,
            value_bits: 2048,
            plaintext_bits: 9,
            expect_ib: 18,
            expect_ow: 10,
            expect_db: 10,
            expect_g: 2,
        },
        Row {
            arity: SchemeKind::Segmented2ary,
            num_buckets: 1 << 18,
            bucket_size: 4,
            value_bits: 8192,
            plaintext_bits: 9,
            expect_ib: 18,
            expect_ow: 12,
            expect_db: 10,
            expect_g: 2,
        },
        Row {
            // RisePIR-S, ℓ = 1 kB: ω = 4128 -> OW = 13, G = 3.
            arity: SchemeKind::Segmented2ary,
            num_buckets: 1 << 18,
            bucket_size: 4,
            value_bits: 8192,
            plaintext_bits: 8,
            expect_ib: 18,
            expect_ow: 13,
            expect_db: 9,
            expect_g: 3,
        },
        Row {
            arity: SchemeKind::Segmented4ary,
            num_buckets: 1 << 20,
            bucket_size: 1,
            value_bits: 2048,
            plaintext_bits: 9,
            expect_ib: 20,
            expect_ow: 8,
            expect_db: 10,
            expect_g: 1,
        },
        Row {
            arity: SchemeKind::Segmented4ary,
            num_buckets: 1 << 19,
            bucket_size: 2,
            value_bits: 2048,
            plaintext_bits: 9,
            expect_ib: 19,
            expect_ow: 9,
            expect_db: 10,
            expect_g: 1,
        },
        Row {
            arity: SchemeKind::Segmented3ary,
            num_buckets: 3 << 18,
            bucket_size: 2,
            value_bits: 2048,
            plaintext_bits: 9,
            expect_ib: 20,
            expect_ow: 9,
            expect_db: 10,
            expect_g: 1,
        },
        Row {
            arity: SchemeKind::Segmented3ary,
            num_buckets: 3 << 17,
            bucket_size: 3,
            value_bits: 2048,
            plaintext_bits: 9,
            expect_ib: 19,
            expect_ow: 10,
            expect_db: 10,
            expect_g: 2,
        },
    ];
    for r in rows {
        let params = CuckooParams {
            scheme_kind: r.arity,
            num_buckets: r.num_buckets,
            bucket_size: r.bucket_size,
            fingerprint_bits,
            value_bits: r.value_bits,
            plaintext_bits: r.plaintext_bits,
        };
        let layout = DeltaWireLayout::for_params(&params);
        assert_eq!(
            layout.bucket_bits, r.expect_ib,
            "IB mismatch for {params:?}"
        );
        assert_eq!(
            layout.offset_bits, r.expect_ow,
            "OW mismatch for {params:?}"
        );
        assert_eq!(layout.delta_bits, r.expect_db, "DB mismatch for {params:?}");
        assert_eq!(layout.max_gap, r.expect_g, "G mismatch for {params:?}");
    }
}

#[test]
fn empty_bundle_round_trips_and_is_nine_bytes() {
    let p = small_params(SchemeKind::Segmented2ary);
    for epoch in [0u64, 1, u64::MAX] {
        let b = build(p, epoch, vec![Vec::new(); p.arity()]);
        let bytes = b.encode();
        assert_eq!(
            bytes.len(),
            9,
            "epoch(64) + terminator(1), padded, is 9 bytes"
        );
        assert_eq!(b.wire_byte_size(), 9);
        let decoded = Bundle::decode(&bytes, p).unwrap();
        assert_eq!(decoded, b);
        assert_eq!(decoded.epoch, epoch);
    }
}

#[test]
fn single_row_single_run_round_trips() {
    let p = small_params(SchemeKind::Segmented2ary);
    let mut segs = vec![Vec::new(); p.arity()];
    segs[0].push((1u32, vec![(0u16, 3i64), (1u16, -2i64)]));
    let b = build(p, 5, segs);
    let bytes = b.encode();
    assert_eq!(bytes.len(), b.wire_byte_size());
    assert_eq!(Bundle::decode(&bytes, p).unwrap(), b);
}

#[test]
fn gap_equal_to_max_gap_merges_into_one_run() {
    let p = small_params(SchemeKind::Segmented2ary);
    let layout = DeltaWireLayout::for_params(&p);
    assert_eq!(
        layout.max_gap, 1,
        "fixture sanity: this test targets G == 1"
    );
    let mut segs = vec![Vec::new(); p.arity()];
    segs[0].push((0u32, vec![(0u16, 3i64), (2u16, -2i64)])); // gap = 2-0-1 = 1 = G
    let b = build(p, 1, segs);
    let stats = b.wire_stats();
    assert_eq!(stats.runs, 1, "gap == G must merge into a single run");
    assert_eq!(
        stats.cells, 3,
        "run covers offsets 0,1,2: 2 nonzero + 1 zero literal"
    );
    assert_eq!(stats.nonzero_cells, 2);
    let bytes = b.encode();
    assert_eq!(bytes.len(), b.wire_byte_size());
    assert_eq!(Bundle::decode(&bytes, p).unwrap(), b);
}

#[test]
fn gap_greater_than_max_gap_splits_into_two_runs() {
    let p = small_params(SchemeKind::Segmented2ary);
    let layout = DeltaWireLayout::for_params(&p);
    assert_eq!(
        layout.max_gap, 1,
        "fixture sanity: this test targets G == 1"
    );
    let mut segs = vec![Vec::new(); p.arity()];
    segs[0].push((0u32, vec![(0u16, 3i64), (3u16, -2i64)])); // gap = 3-0-1 = 2 > G
    let b = build(p, 1, segs);
    let stats = b.wire_stats();
    assert_eq!(stats.runs, 2, "gap > G must split into two runs");
    assert_eq!(stats.cells, 2);
    let bytes = b.encode();
    assert_eq!(bytes.len(), b.wire_byte_size());
    assert_eq!(Bundle::decode(&bytes, p).unwrap(), b);
}

fn round_trip_boundaries(p: CuckooParams) {
    let arity = p.arity();
    let layout = DeltaWireLayout::for_params(&p);
    let rho = layout.segment_size;
    let omega = layout.row_width;
    let mut segs = vec![Vec::new(); arity];
    segs[0].push((0u32, vec![(0u16, 1i64)]));
    segs[0].push((rho - 1, vec![((omega - 1) as u16, -1i64)]));
    segs[arity - 1].push((0u32, vec![(0u16, 2i64), (1u16, -3i64)]));
    segs[arity - 1].push((rho - 1, vec![((omega - 1) as u16, 1i64)]));
    let b = build(p, 42, segs);
    let bytes = b.encode();
    assert_eq!(bytes.len(), b.wire_byte_size());
    assert_eq!(Bundle::decode(&bytes, p).unwrap(), b);
}

#[test]
fn round_trip_boundary_rows_and_offsets_2ary() {
    round_trip_boundaries(small_params(SchemeKind::Segmented2ary));
}

#[test]
fn round_trip_boundary_rows_and_offsets_3ary() {
    round_trip_boundaries(small_params(SchemeKind::Segmented3ary));
}

#[test]
fn round_trip_boundary_rows_and_offsets_4ary() {
    round_trip_boundaries(small_params(SchemeKind::Segmented4ary));
}

#[test]
fn delta_boundary_values_round_trip_at_several_plaintext_bits() {
    for pb in [8u32, 9, 10] {
        let p = params_with_pb(pb);
        let layout = DeltaWireLayout::for_params(&p);
        assert_eq!(layout.delta_bits, pb + 1);
        let modulus = 1i64 << pb;
        for gamma in [-(modulus - 1), -1, 1, modulus - 1] {
            let mut segs = vec![Vec::new(); p.arity()];
            segs[0].push((0u32, vec![(0u16, gamma)]));
            let b = build(p, 1, segs);
            let bytes = b.encode();
            assert_eq!(
                Bundle::decode(&bytes, p).unwrap(),
                b,
                "gamma = {gamma} at pb = {pb} must round-trip"
            );
        }
    }
}

#[test]
fn decode_rejects_reserved_delta_code_point() {
    let p = params_with_pb(9);
    let layout = DeltaWireLayout::for_params(&p);
    let mut segs = vec![Vec::new(); p.arity()];
    segs[0].push((0u32, vec![(0u16, 1i64)]));
    let bytes = build(p, 1, segs).encode();
    let mut bytes = bytes;

    // Patch the single delta field to the reserved code point
    // u = 2p - 1 (all DB bits set). Layout up to that field:
    // epoch(64) row_flag(1) bucket(IB) start(OW) len_minus_1(OW).
    let delta_bit_offset =
        64 + 1 + layout.bucket_bits as usize + 2 * layout.offset_bits as usize;
    let db = layout.delta_bits as usize;
    for j in 0..db {
        let idx = delta_bit_offset + j;
        bytes[idx / 8] |= 1 << (idx % 8);
    }
    let err = Bundle::decode(&bytes, p).unwrap_err();
    let expected_code = (1u64 << db) - 1;
    assert_eq!(
        err,
        WireError::DeltaOutOfRange {
            code: expected_code
        }
    );
}

#[test]
fn decode_rejects_bucket_out_of_range() {
    let p = odd_params();
    let layout = DeltaWireLayout::for_params(&p);
    let bytes = raw_pack(&[
        (0, 64),
        (1, 1),
        (u64::from(layout.num_buckets), layout.bucket_bits), // == n_b
    ]);
    let err = Bundle::decode(&bytes, p).unwrap_err();
    assert_eq!(
        err,
        WireError::BucketOutOfRange {
            bucket: layout.num_buckets
        }
    );
}

#[test]
fn decode_rejects_start_out_of_range() {
    let p = odd_params();
    let layout = DeltaWireLayout::for_params(&p);
    let bytes = raw_pack(&[
        (0, 64),
        (1, 1),
        (0, layout.bucket_bits),
        (u64::from(layout.row_width), layout.offset_bits), // == omega
    ]);
    let err = Bundle::decode(&bytes, p).unwrap_err();
    assert_eq!(
        err,
        WireError::OffsetOutOfRange {
            offset: layout.row_width
        }
    );
}

#[test]
fn decode_rejects_run_extending_past_row_width() {
    let p = odd_params();
    let layout = DeltaWireLayout::for_params(&p);
    // start = 1 (valid, omega = 3), len - 1 = 2 => len = 3, start+len = 4 > 3.
    let bytes = raw_pack(&[
        (0, 64),
        (1, 1),
        (0, layout.bucket_bits),
        (1, layout.offset_bits),
        (2, layout.offset_bits),
    ]);
    let err = Bundle::decode(&bytes, p).unwrap_err();
    assert_eq!(err, WireError::OffsetOutOfRange { offset: 4 });
}

#[test]
fn decode_rejects_rows_not_strictly_ascending() {
    let p = odd_params();
    let layout = DeltaWireLayout::for_params(&p);
    let bytes = raw_pack(&[
        (0, 64),
        (1, 1),
        (1, layout.bucket_bits), // row1: bucket = 1
        (0, layout.offset_bits),
        (0, layout.offset_bits),
        (delta_code(1, &p), layout.delta_bits),
        (0, 1),                  // end row1's runs
        (1, 1),                  // another row follows
        (1, layout.bucket_bits), // row2: bucket = 1, not > 1
    ]);
    let err = Bundle::decode(&bytes, p).unwrap_err();
    assert_eq!(err, WireError::NonCanonicalRows);
}

#[test]
fn decode_rejects_runs_closer_than_max_gap_plus_one() {
    let p = odd_params();
    let layout = DeltaWireLayout::for_params(&p);
    assert_eq!(
        layout.max_gap, 0,
        "fixture sanity: this test targets G == 0"
    );
    let bytes = raw_pack(&[
        (0, 64),
        (1, 1),
        (0, layout.bucket_bits),
        (0, layout.offset_bits), // run1 start = 0
        (0, layout.offset_bits), // run1 len - 1 = 0 (covers offset 0)
        (delta_code(1, &p), layout.delta_bits),
        (1, 1),                  // another run follows
        (1, layout.offset_bits), // run2 start = 1 (gap = 1 - 1 = 0 <= G)
        (0, layout.offset_bits), // run2 len - 1 = 0
    ]);
    let err = Bundle::decode(&bytes, p).unwrap_err();
    assert_eq!(err, WireError::NonCanonicalRuns);
}

#[test]
fn decode_rejects_run_with_zero_boundary_delta() {
    let p = odd_params();
    let layout = DeltaWireLayout::for_params(&p);
    let bytes = raw_pack(&[
        (0, 64),
        (1, 1),
        (0, layout.bucket_bits),
        (0, layout.offset_bits),
        (0, layout.offset_bits),                // single-cell run
        (delta_code(0, &p), layout.delta_bits), // delta = 0
        (0, 1),
        (0, 1),
    ]);
    let err = Bundle::decode(&bytes, p).unwrap_err();
    assert_eq!(err, WireError::NonCanonicalRuns);
}

#[test]
fn decode_rejects_interior_zero_stretch_longer_than_max_gap() {
    let p = small_params(SchemeKind::Segmented2ary);
    let layout = DeltaWireLayout::for_params(&p);
    assert_eq!(
        layout.max_gap, 1,
        "fixture sanity: this test targets G == 1"
    );
    let bytes = raw_pack(&[
        (0, 64),
        (1, 1),
        (0, layout.bucket_bits),
        (0, layout.offset_bits),                // start = 0
        (3, layout.offset_bits),                // len - 1 = 3 => len = 4, covers offsets 0..3
        (delta_code(1, &p), layout.delta_bits), // offset 0: nonzero
        (delta_code(0, &p), layout.delta_bits), // offset 1: zero
        (delta_code(0, &p), layout.delta_bits), // offset 2: zero (2 zeros > G = 1)
        (delta_code(1, &p), layout.delta_bits), // offset 3: nonzero
        (0, 1),
        (0, 1),
    ]);
    let err = Bundle::decode(&bytes, p).unwrap_err();
    assert_eq!(err, WireError::NonCanonicalRuns);
}

#[test]
fn decode_rejects_nonzero_padding_bit() {
    let p = small_params(SchemeKind::Segmented2ary);
    let b = build(p, 5, vec![Vec::new(); p.arity()]);
    let mut bytes = b.encode();
    assert_eq!(bytes.len(), 9);
    // Bit 65 is the first padding bit after epoch(64) + terminator(1).
    let bit_index = 65;
    bytes[bit_index / 8] |= 1 << (bit_index % 8);
    let err = Bundle::decode(&bytes, p).unwrap_err();
    assert_eq!(err, WireError::NonZeroPadding);
}

#[test]
fn decode_rejects_trailing_bytes() {
    let p = small_params(SchemeKind::Segmented2ary);
    let b = build(p, 5, vec![Vec::new(); p.arity()]);
    let mut bytes = b.encode();
    bytes.push(0);
    let err = Bundle::decode(&bytes, p).unwrap_err();
    assert_eq!(err, WireError::TrailingBytes);
}

#[test]
fn decode_rejects_every_truncated_prefix() {
    let p = small_params(SchemeKind::Segmented2ary);
    let mut segs = vec![Vec::new(); p.arity()];
    segs[0].push((0u32, vec![(0u16, 1i64)]));
    segs[0].push((3u32, vec![(0u16, -1i64), (2u16, 1i64)]));
    segs[p.arity() - 1].push((1u32, vec![(3u16, 2i64)]));
    let b = build(p, 7, segs);
    let bytes = b.encode();
    assert!(
        bytes.len() > 8,
        "fixture must be non-trivial for a meaningful prefix sweep"
    );
    for len in 0..bytes.len() {
        let prefix = &bytes[..len];
        assert!(
            Bundle::decode(prefix, p).is_err(),
            "prefix of length {len} (full length {}) must be rejected",
            bytes.len()
        );
    }
}

#[test]
fn wire_stats_bits_match_hand_computed_closed_form() {
    let p = small_params(SchemeKind::Segmented2ary); // rho=4, omega=4, IB=3, OW=2, DB=5, G=1
    let layout = DeltaWireLayout::for_params(&p);
    let mut segs = vec![Vec::new(); p.arity()];
    // segment 0, row 0: offsets {0, 2}, gap = 1 = G -> merges into one run (len 3).
    segs[0].push((0u32, vec![(0u16, 1i64), (2u16, -1i64)]));
    // segment 1, row 3: single-cell run.
    segs[1].push((3u32, vec![(3u16, 2i64)]));
    let b = build(p, 9, segs);
    let stats = b.wire_stats();

    let rows = 2u64;
    let runs = 2u64;
    let cells = 4u64; // 3 (merged run, incl. 1 zero literal) + 1
    let hand_bits = 64
        + 1
        + rows * (1 + u64::from(layout.bucket_bits))
        + runs * (2 * u64::from(layout.offset_bits) + 1)
        + cells * u64::from(layout.delta_bits);

    assert_eq!(stats.rows, rows);
    assert_eq!(stats.runs, runs);
    assert_eq!(stats.cells, cells);
    assert_eq!(stats.bits, hand_bits);
    assert_eq!(stats.bytes, hand_bits.div_ceil(8) as usize);
}

/// Random geometries and random canonical bundles.
#[test]
fn prop_encode_decode_round_trip() {
    let mut rng = ChaCha20Rng::seed_from_u64(0x5EED);
    let schemes = [
        SchemeKind::Segmented2ary,
        SchemeKind::Segmented3ary,
        SchemeKind::Segmented4ary,
    ];
    for _ in 0..256 {
        let scheme_kind = schemes[rng.random_range(0..3usize)];
        let params = CuckooParams {
            scheme_kind,
            num_buckets: arity_of(scheme_kind) * (1u32 << rng.random_range(3..=8u32)),
            bucket_size: rng.random_range(1..=4u32),
            fingerprint_bits: [12u32, 32, 64][rng.random_range(0..3usize)],
            value_bits: [8u32, 64, 2048][rng.random_range(0..3usize)],
            plaintext_bits: rng.random_range(8..=12u32),
        };
        let rho = params.segment_size();
        let omega = params.bucket_size * params.cells_per_slot();
        let p = 1i64 << params.plaintext_bits;
        let mut segs: Vec<SegmentRowDeltas> = Vec::new();
        for _ in 0..params.arity() {
            let mut rows = std::collections::BTreeMap::new();
            for _ in 0..rng.random_range(0..=6u32) {
                let mut cells = std::collections::BTreeMap::new();
                for _ in 0..rng.random_range(1..=6u32) {
                    let mut delta = rng.random_range(1..p);
                    if rng.random_range(0..2u32) == 1 {
                        delta = -delta;
                    }
                    cells.insert(rng.random_range(0..omega) as u16, delta);
                }
                let cells: Vec<(u16, i64)> = cells.into_iter().collect();
                rows.insert(rng.random_range(0..rho), cells);
            }
            segs.push(rows.into_iter().collect());
        }
        let bundle = Bundle::new(rng.random_range(0..=u64::MAX), segs, params);
        let stats = bundle.wire_stats();
        let bytes = bundle.encode();
        assert_eq!(bytes.len(), bundle.wire_byte_size());
        assert_eq!(bytes.len(), stats.bytes);
        let expected_nonzero: u64 = bundle
            .per_segment_row_deltas
            .iter()
            .flat_map(|seg| seg.iter())
            .map(|(_, cells)| cells.len() as u64)
            .sum();
        assert_eq!(stats.nonzero_cells, expected_nonzero);
        assert_eq!(Bundle::decode(&bytes, params).unwrap(), bundle);
    }
}

/// What is not canonical is not encoded.
#[test]
fn validate_refuses_what_is_not_canonical() {
    let p = small_params(SchemeKind::Segmented2ary);
    let layout = DeltaWireLayout::for_params(&p);
    let one = |rows: SegmentRowDeltas| {
        let mut segs = vec![Vec::new(); p.arity()];
        segs[0] = rows;
        build(p, 1, segs).validate(&layout)
    };
    assert!(one(vec![(0, vec![(0, 1)]), (1, vec![(1, -15), (3, 15)])]));
    // A delta of the modulus, in both directions, and a zero delta.
    assert!(!one(vec![(0, vec![(0, 16)])]));
    assert!(!one(vec![(0, vec![(0, -16)])]));
    assert!(!one(vec![(0, vec![(0, 0)])]));
    // Rows and offsets out of order, twice, and out of range.
    assert!(!one(vec![(2, vec![(0, 1)]), (1, vec![(0, 1)])]));
    assert!(!one(vec![(1, vec![(0, 1)]), (1, vec![(1, 1)])]));
    assert!(!one(vec![(0, vec![(2, 1), (1, 1)])]));
    assert!(!one(vec![(0, vec![(1, 1), (1, 2)])]));
    assert!(!one(vec![(0, vec![(layout.row_width as u16, 1)])]));
    assert!(!one(vec![(layout.segment_size, vec![(0, 1)])]));
    // An empty row, and a segment too many.
    assert!(!one(vec![(0, Vec::new())]));
    assert!(!build(p, 1, vec![Vec::new(); p.arity() + 1]).validate(&layout));
}

#[test]
fn bits_are_packed_lowest_first() {
    let mut w = BitWriter::new(3);
    w.write_bits(0b101, 3);
    w.write_bit(true);
    w.write_bits(0x1234, 16);
    let bytes = w.finish();
    assert_eq!(bytes, vec![0x4D, 0x23, 0x01]);
    let mut r = BitReader::new(&bytes);
    assert_eq!(r.read_bits(3), Ok(0b101));
    assert_eq!(r.read_bits(1), Ok(1));
    assert_eq!(r.read_bits(16), Ok(0x1234));
    assert_eq!(r.position(), 20);
    assert_eq!(r.read_bits(5), Err(WireError::Truncated));
    assert_eq!(r.read_bits(4), Ok(0));
}

#[test]
fn a_small_bundle_has_these_bytes() {
    let p = odd_params();
    let mut segs = vec![Vec::new(); p.arity()];
    segs[1].push((2u32, vec![(1u16, -1i64)]));
    // Epoch 1, a row, bucket 5 in three bits, start 1 and length 1 in two bits each, the code
    // 254 in nine bits, no more runs, no more rows.
    let bytes = build(p, 1, segs).encode();
    assert_eq!(bytes, raw_pack(&[
        (1, 64),
        (1, 1),
        (5, 3),
        (1, 2),
        (0, 2),
        (254, 9),
        (0, 1),
        (0, 1),
    ]));
}

#[test]
fn wire_errors_have_their_texts() {
    assert_eq!(
        WireError::BucketOutOfRange { bucket: 70 }.message(),
        "hint-delta wire: bucket 70 out of range"
    );
    assert_eq!(
        WireError::TrailingBytes.message(),
        "hint-delta wire: trailing bytes after the padded encoding"
    );
}

#[test]
fn bundle_sizes_are_sums_of_their_parts() {
    let db: Vec<u32> = (0..32).collect();
    let (sp, _mat, hint) =
        FrodoPirBackend::server_setup(&FrodoConfig::with_lwe_dim(8), &db, 8, 4, 8);
    let mut state = FrodoPirBackend::client_setup(&sp, &hint);
    let q = FrodoPirBackend::client_query(&mut state, 1);
    let r = FrodoPirBackend::server_answer(&sp, &db, 8, 4, &q);
    let queries = PirQueryBundle::<FrodoPirBackend> {
        epoch: 0,
        queries: vec![q.clone(), q],
    };
    assert_eq!(queries.wire_byte_size(), 8 + 4 + 2 * 32);
    let responses = PirResponseBundle::<FrodoPirBackend> {
        epoch: 0,
        responses: vec![r],
    };
    assert_eq!(responses.wire_byte_size(), 8 + 4 + 16);
    let setup = ServerSetupBundle::<FrodoPirBackend> {
        params: odd_params(),
        backend_params: vec![sp],
        hints: vec![hint],
        epoch: 0,
    };
    assert_eq!(
        setup.wire_byte_size(),
        21 + 8
            + 4
            + <FrodoPirBackend as ikpir::backend::BackendWireSize>::server_params_byte_size(&sp)
            + 4
            + 4 * 8 * 4
    );
}

#[test]
fn bundles_are_equal_where_all_of_their_parts_are() {
    let p = small_params(SchemeKind::Segmented2ary);
    let b = build(p, 3, vec![vec![(1, vec![(0, 2), (2, -1)])], vec![]]);
    let copy = b.clone();
    assert!(b == copy);
    assert_eq!(copy.encode(), b.encode());
    assert!(b != build(p, 4, vec![vec![(1, vec![(0, 2), (2, -1)])], vec![]]));
    assert!(b != build(p, 3, vec![vec![(1, vec![(0, 2), (2, 1)])], vec![]]));
    assert!(b != build(p, 3, vec![vec![(2, vec![(0, 2), (2, -1)])], vec![]]));
    assert!(b != build(p, 3, vec![vec![(1, vec![(0, 2)])], vec![]]));
    assert!(b != build(p, 3, vec![vec![], vec![(1, vec![(0, 2), (2, -1)])]]));
    let mut wider = p;
    wider.value_bits = 8;
    assert!(b != build(wider, 3, vec![vec![(1, vec![(0, 2), (2, -1)])], vec![]]));
}

#[test]
fn a_store_without_buckets_has_an_encoding() {
    let mut p = small_params(SchemeKind::Segmented2ary);
    p.num_buckets = 0;
    let b = build(p, 7, vec![vec![], vec![]]);
    let bytes = b.encode();
    assert_eq!(bytes, vec![7, 0, 0, 0, 0, 0, 0, 0, 0]);
    assert!(Bundle::decode(&bytes, p).unwrap() == b);
    // A row flag: there is no bucket that it could name.
    assert_eq!(
        Bundle::decode(&[7, 0, 0, 0, 0, 0, 0, 0, 1], p).err(),
        Some(WireError::BucketOutOfRange { bucket: 0 })
    );
}

/// Every way to cut the cells of a row into runs, tried out.
#[test]
fn no_other_grouping_is_shorter() {
    let p = odd_params();
    let probe = build(p, 0, vec![vec![]; p.arity()]);
    let l = probe.layout();
    for offsets in [
        vec![0u16, 1, 2],
        vec![0, 2, 5],
        vec![0, 3, 4, 9],
        vec![1, 4, 8, 10],
    ] {
        let offsets: Vec<u16> = offsets
            .into_iter()
            .filter(|&o| u32::from(o) < l.row_width)
            .collect();
        let cells: Vec<(u16, i64)> = offsets.iter().map(|&o| (o, 1)).collect();
        let mut segs: Vec<SegmentRowDeltas> = vec![vec![]; p.arity()];
        segs[0] = vec![(0, cells)];
        let stats = build(p, 0, segs).wire_stats();
        let mut least = u64::MAX;
        for cuts in 0u32..1 << (offsets.len() - 1) {
            let (mut runs, mut covered) = (1, 1);
            for k in 1..offsets.len() {
                if cuts >> (k - 1) & 1 == 1 {
                    runs += 1;
                    covered += 1;
                } else {
                    covered += u64::from(offsets[k] - offsets[k - 1]);
                }
            }
            least = least.min(l.bits(1, runs, covered));
        }
        assert_eq!(stats.bits, least, "offsets {offsets:?}");
        assert_eq!(stats.rows, 1);
        assert_eq!(stats.nonzero_cells, offsets.len() as u64);
    }
}
