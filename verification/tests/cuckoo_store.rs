//! The segmented cuckoo map.
use ikpir::cuckoo_store::{MapError, SegmentedCuckooMap, UpdateBatch, DEFAULT_MAX_KICKS};
use ikpir::fingerprint::{decode_fp, encode_fp_into};
use ikpir::hash::SegmentedScheme;
use ikpir::lwe::decode_value;
use ikpir::matrix::MatrixError;
use ikpir::params::{Arity, FilterParams, DEFAULT_SLOTS_PER_BUCKET};

fn map_of(arity: Arity, num_items: u32, value_len: u32) -> SegmentedCuckooMap<SegmentedScheme> {
    let params = FilterParams::recommended(arity, num_items, value_len).unwrap();
    let scheme = SegmentedScheme {
        degree: params.degree(),
        segment_size: params.seg(),
    };
    SegmentedCuckooMap::new(
        scheme,
        params,
        DEFAULT_SLOTS_PER_BUCKET,
        DEFAULT_MAX_KICKS,
        [0u8; 32],
    )
    .ok()
    .unwrap()
}

fn seg2_map(num_items: u32, value_len: u32) -> SegmentedCuckooMap<SegmentedScheme> {
    map_of(Arity::Segmented2, num_items, value_len)
}

fn seg3_map(num_items: u32, value_len: u32) -> SegmentedCuckooMap<SegmentedScheme> {
    map_of(Arity::Segmented3, num_items, value_len)
}

fn seg4_map(num_items: u32, value_len: u32) -> SegmentedCuckooMap<SegmentedScheme> {
    map_of(Arity::Segmented4, num_items, value_len)
}

fn all_values(map: &SegmentedCuckooMap<SegmentedScheme>) -> Vec<Option<Vec<u8>>> {
    let mut out = Vec::new();
    for j in 0..map.k() {
        for local in 0..map.seg() {
            for s in 0..map.slots_per_bucket() {
                out.push(map.read_value(j, local, s).cloned());
            }
        }
    }
    out
}

fn mk_value(i: u32, len: u32) -> Vec<u8> {
    (0..len as usize)
        .map(|j| ((i.wrapping_add(j as u32)) & 0xFF) as u8)
        .collect()
}

fn mk_key(i: u32) -> Vec<u8> {
    format!("key-{i}").into_bytes()
}

#[test]
fn fp_encode_decode_round_trip() {
    for bit_len in [4u32, 7, 9, 12, 14] {
        for fp_bits in [8u32, 12, 16, 20] {
            if fp_bits < bit_len {
                continue;
            }
            let fp_elems = fp_bits.div_ceil(bit_len) as usize;
            let mut buf = vec![0u32; fp_elems];
            for sample in [0u32, 1, 0xABC, 0xFFFF, 0x1234_5678] {
                encode_fp_into(sample, fp_bits, bit_len, &mut buf);
                let decoded = decode_fp(&buf, fp_bits, bit_len);
                let expected = sample
                    & if fp_bits >= 32 {
                        u32::MAX
                    } else {
                        (1u32 << fp_bits) - 1
                    };
                assert_eq!(
                    decoded, expected,
                    "fp={:#x} bit_len={} fp_bits={}",
                    sample, bit_len, fp_bits
                );
                for &c in &buf {
                    assert!(c < (1u32 << bit_len), "encoded chunk out of range: {}", c);
                }
            }
        }
    }
}

#[test]
fn new_rejects_non_segmented_arity() {
    // Construct Standard4 params directly since `recommended` rejects non-segmented arities.
    let params = FilterParams {
        arity: Arity::Standard4,
        num_buckets: 128,
        fingerprint_bits: 12,
        row_elems: 32,
        mat_elem_bit_len: 8,
        value_len: 32,
    };
    let scheme = SegmentedScheme {
        degree: 2,
        segment_size: params.seg(),
    };
    let err = SegmentedCuckooMap::new(
        scheme,
        params,
        DEFAULT_SLOTS_PER_BUCKET,
        DEFAULT_MAX_KICKS,
        [0u8; 32],
    )
    .err();
    assert_eq!(err, Some(MapError::ArityNotSegmented));
}

#[test]
fn insert_then_lookup_roundtrip_seg4() {
    let value_len = 8;
    let num = 100;
    let mut map = seg4_map(num, value_len);
    for i in 0..num {
        map.insert(&mk_key(i), &mk_value(i, value_len))
            .unwrap_or_else(|e| panic!("insert {i}: {e:?}"));
    }
    for i in 0..num {
        let (tag, indices) = map.lookup_candidates(&mk_key(i));
        // Expect the tag to be found in at least one candidate bucket, at a slot whose
        // mirrored value equals the stored value.
        let mut found = false;
        for j in 0..map.k() as usize {
            let local = indices[j] - (j as u32) * map.seg();
            for s in 0..map.slots_per_bucket() {
                if map.read_fingerprint(j as u32, local, s) == tag {
                    let val = map.read_value(j as u32, local, s).unwrap();
                    if val.as_slice() == mk_value(i, value_len).as_slice() {
                        found = true;
                    }
                }
            }
        }
        assert!(found, "key {i} not found after insert");
    }
}

#[test]
fn insert_then_lookup_roundtrip_seg2_and_seg3() {
    let value_len = 8;
    let num = 50;
    for arity_id in 0..2 {
        if arity_id == 0 {
            let mut m = seg2_map(num, value_len);
            for i in 0..num {
                m.insert(&mk_key(i), &mk_value(i, value_len)).unwrap();
            }
        } else {
            let mut m = seg3_map(num, value_len);
            for i in 0..num {
                m.insert(&mk_key(i), &mk_value(i, value_len)).unwrap();
            }
        }
    }
}

#[test]
fn duplicate_key_is_rejected() {
    let mut map = seg4_map(50, 8);
    let key = mk_key(0);
    let val = mk_value(0, 8);
    map.insert(&key, &val).unwrap();
    let err = map.insert(&key, &val).unwrap_err();
    assert_eq!(err, MapError::Duplicate);
}

#[test]
fn value_length_mismatch_is_rejected() {
    let mut map = seg4_map(50, 8);
    let err = map.insert(&mk_key(0), &mk_value(0, 7)).unwrap_err();
    assert_eq!(err, MapError::ValueLength);
}

#[test]
fn insert_kick_exhaustion_rolls_back_everything() {
    // Tiny map with max_kicks=0 and a capacity of exactly the buckets we fill.
    // Deliberately construct a situation where every candidate bucket is already full and
    // kicks are disallowed.
    let params = FilterParams::recommended(Arity::Segmented4, 32, 4).unwrap();
    let scheme = SegmentedScheme {
        degree: 4,
        segment_size: params.seg(),
    };
    let b = DEFAULT_SLOTS_PER_BUCKET;
    let mut map = SegmentedCuckooMap::new(scheme, params, b, 0, [0u8; 32])
        .ok()
        .unwrap();

    // Find a key whose candidate buckets we can saturate deterministically.
    // Strategy: precompute many keys, pick one, fill its k candidate buckets with
    // unrelated entries (b * k different (fp, value) pairs placed directly).
    let target_key = mk_key(0);
    let (_, target_indices) = map.lookup_candidates(&target_key);
    // Fill all k candidate buckets of the target key with b direct tags each.
    for j in 0..map.k() as usize {
        let local = target_indices[j] - (j as u32) * map.seg();
        for s in 0..map.slots_per_bucket() {
            // Place a distinct non-zero tag directly.
            let fake_tag = 1 + (j as u32) * 10 + s;
            map.write_slot(j as u32, local, s, fake_tag, vec![0xAAu8; 4]);
        }
    }

    // Snapshot
    let tables_before: Vec<Vec<u32>> = (0..map.k() as usize)
        .map(|j| {
            (0..map.seg() * map.slots_per_bucket())
                .map(|idx| {
                    map.read_fingerprint(
                        j as u32,
                        idx / map.slots_per_bucket(),
                        idx % map.slots_per_bucket(),
                    )
                })
                .collect()
        })
        .collect();
    let values_before = all_values(&map);

    // Try to insert target key with max_kicks=0. All candidate buckets are full -> TableFull.
    let err = map.insert(&target_key, &mk_value(0, 4)).unwrap_err();
    assert_eq!(err, MapError::TableFull);

    // Verify full state-restoration.
    for j in 0..map.k() as usize {
        for local in 0..map.seg() {
            for s in 0..map.slots_per_bucket() {
                let idx = (local * map.slots_per_bucket() + s) as usize;
                assert_eq!(
                    map.read_fingerprint(j as u32, local, s),
                    tables_before[j][idx],
                    "table[{j}][{local}][{s}] not restored"
                );
            }
        }
    }
    assert_eq!(all_values(&map), values_before, "value mirror not restored");
}

#[test]
fn delete_removes_fp_and_value() {
    let mut map = seg4_map(50, 8);
    let key = mk_key(0);
    let val = mk_value(0, 8);
    map.insert(&key, &val).unwrap();
    let batch = map.delete(&key).unwrap();
    assert_eq!(batch.rows.len(), 1);

    // Re-find fails.
    let err = map.delete(&key).unwrap_err();
    assert_eq!(err, MapError::NotFound);

    // And the fingerprint slot is really gone.
    let (tag, indices) = map.lookup_candidates(&key);
    for j in 0..map.k() as usize {
        let local = indices[j] - (j as u32) * map.seg();
        for s in 0..map.slots_per_bucket() {
            if map.read_fingerprint(j as u32, local, s) == tag {
                panic!("fingerprint still present after delete");
            }
            if map.read_value(j as u32, local, s).is_some() {
                let stored = map.read_value(j as u32, local, s).unwrap();
                assert_ne!(
                    stored.as_slice(),
                    val.as_slice(),
                    "value still present after delete"
                );
            }
        }
    }
}

#[test]
fn update_value_replaces_value_in_place() {
    let value_len: u32 = 8;
    let mut map = seg4_map(50, value_len);
    let key = mk_key(7);
    let orig = mk_value(7, value_len);
    let new_val = mk_value(999, value_len);
    map.insert(&key, &orig).unwrap();

    // Locate the slot the insert landed in.
    let (tag, indices) = map.lookup_candidates(&key);
    let (seg_before, local_before, slot_before) = (0..map.k() as usize)
        .find_map(|j| {
            let local = indices[j] - (j as u32) * map.seg();
            (0..map.slots_per_bucket())
                .find(|s| map.read_fingerprint(j as u32, local, *s) == tag)
                .map(|s| (j as u8, local, s))
        })
        .expect("slot located after insert");

    let batch = map.update_value(&key, &new_val).unwrap();
    assert_eq!(batch.rows.len(), 1);
    assert_eq!(batch.rows[0].segment_idx, seg_before);
    assert_eq!(batch.rows[0].row_local_idx, local_before);

    // Same slot, same tag; value is replaced.
    assert_eq!(
        map.read_fingerprint(u32::from(seg_before), local_before, slot_before),
        tag,
    );
    assert_eq!(
        map.read_value(u32::from(seg_before), local_before, slot_before),
        Some(&new_val),
    );
}

#[test]
fn update_value_unknown_key_is_error() {
    let mut map = seg4_map(50, 8);
    let err = map.update_value(&mk_key(123), &mk_value(0, 8)).unwrap_err();
    assert_eq!(err, MapError::NotFound);
}

#[test]
fn update_value_wrong_length_is_error() {
    let mut map = seg4_map(50, 8);
    let key = mk_key(0);
    map.insert(&key, &mk_value(0, 8)).unwrap();
    let err = map.update_value(&key, &mk_value(0, 7)).unwrap_err();
    assert_eq!(err, MapError::ValueLength);
}

#[test]
fn encode_bucket_empty_is_all_zero() {
    let map = seg4_map(50, 8);
    let row = map.encode_bucket(0, 0).unwrap();
    assert_eq!(row.len(), map.row_elems_bucket() as usize);
    assert!(row.iter().all(|&e| e == 0));
}

#[test]
fn encode_bucket_round_trip_single_slot() {
    let value_len: u32 = 8;
    let mut map = seg4_map(50, value_len);
    let key = mk_key(42);
    let val = mk_value(42, value_len);
    map.insert(&key, &val).unwrap();

    // Find where we placed it.
    let (tag, indices) = map.lookup_candidates(&key);
    let (seg_idx, local, slot) = (0..map.k() as usize)
        .find_map(|j| {
            let local = indices[j] - (j as u32) * map.seg();
            (0..map.slots_per_bucket())
                .find(|s| map.read_fingerprint(j as u32, local, *s) == tag)
                .map(|s| (j as u8, local, s))
        })
        .expect("stored slot not located");

    let row = map.encode_bucket(seg_idx, local).unwrap();
    let slot_elems = map.slot_elems() as usize;
    let fp_elems = map.fp_elems() as usize;
    let val_elems = map.val_elems() as usize;
    let base = (slot as usize) * slot_elems;

    // Check fingerprint.
    let decoded_fp = decode_fp(
        &row[base..base + fp_elems],
        map.params().fingerprint_bits,
        map.params().mat_elem_bit_len,
    );
    assert_eq!(decoded_fp, tag, "fp round-trip mismatch");

    // Check value payload chunks decode back to the original bytes.
    let payloads = &row[base + fp_elems..base + fp_elems + val_elems];
    let decoded_val = decode_value(payloads, map.params()).unwrap();
    assert_eq!(decoded_val, val);
}

#[test]
fn to_matrices_has_correct_shape_and_round_trip() {
    let value_len: u32 = 8;
    let num = 100;
    let mut map = seg4_map(num, value_len);
    for i in 0..num {
        map.insert(&mk_key(i), &mk_value(i, value_len)).unwrap();
    }
    let mats = map.to_matrices().unwrap();
    assert_eq!(mats.len(), map.k() as usize);
    for m in &mats {
        assert_eq!(m.rows(), map.seg());
        assert_eq!(m.cols(), map.row_elems_bucket());
    }
    // Each inserted key should be recoverable from its matrix row.
    for i in 0..num {
        let (tag, indices) = map.lookup_candidates(&mk_key(i));
        let mut found = false;
        for j in 0..map.k() as usize {
            let local = indices[j] - (j as u32) * map.seg();
            let row = mats[j].row(local).unwrap();
            let slot_elems = map.slot_elems() as usize;
            let fp_elems = map.fp_elems() as usize;
            let val_elems = map.val_elems() as usize;
            for s in 0..map.slots_per_bucket() {
                let base = (s as usize) * slot_elems;
                let decoded_fp = decode_fp(
                    &row[base..base + fp_elems],
                    map.params().fingerprint_bits,
                    map.params().mat_elem_bit_len,
                );
                if decoded_fp == tag {
                    let decoded_val = decode_value(
                        &row[base + fp_elems..base + fp_elems + val_elems],
                        map.params(),
                    )
                    .unwrap();
                    if decoded_val == mk_value(i, value_len) {
                        found = true;
                    }
                }
            }
        }
        assert!(found, "key {i} not recovered from to_matrices output");
    }
}

/// Fills a map beyond what its candidate buckets hold, so that items are kicked around, and
/// finds every item again.
#[test]
fn kicked_items_are_kept() {
    let value_len = 4;
    let params = FilterParams::recommended(Arity::Segmented2, 200, value_len).unwrap();
    let scheme = SegmentedScheme {
        degree: 2,
        segment_size: params.seg(),
    };
    let mut map = SegmentedCuckooMap::new(scheme, params, 4, DEFAULT_MAX_KICKS, [1u8; 32])
        .ok()
        .unwrap();
    let mut held = Vec::new();
    let mut kicked = false;
    for i in 0..460u32 {
        match map.insert(&mk_key(i), &mk_value(i, value_len)) {
            Ok(batch) => {
                kicked = kicked || batch.rows.len() > 1;
                held.push(i);
            }
            Err(e) => assert!(e == MapError::TableFull || e == MapError::Duplicate),
        }
    }
    assert!(kicked, "no insertion kicked anything");
    for i in held {
        let (tag, buckets) = map.lookup_candidates(&mk_key(i));
        let found = (0..map.k()).any(|j| {
            let local = buckets[j as usize] - j * map.seg();
            (0..map.slots_per_bucket()).any(|s| {
                map.read_fingerprint(j, local, s) == tag
                    && map.read_value(j, local, s) == Some(&mk_value(i, value_len))
            })
        });
        assert!(found, "key {i} was lost");
    }
}

#[test]
fn rows_of_a_batch_are_the_rows_of_their_buckets() {
    let mut map = seg3_map(100, 8);
    for i in 0..100u32 {
        let batch: UpdateBatch = map.insert(&mk_key(i), &mk_value(i, 8)).unwrap();
        for row in &batch.rows {
            assert_eq!(
                map.encode_bucket(row.segment_idx, row.row_local_idx).unwrap(),
                row.new_payload
            );
        }
    }
    assert_eq!(map.encode_bucket(3, 0), Err(MapError::EncodingFailed));
}

#[test]
fn map_errors_have_their_texts() {
    assert_eq!(
        MapError::TableFull.message(),
        "cuckoo kicks exhausted; insert rolled back"
    );
    assert_eq!(
        MapError::from(MatrixError::OutOfBounds).message(),
        "matrix error: matrix index out of bounds"
    );
}

#[test]
fn a_copy_of_a_map_goes_its_own_way() {
    let mut map = seg3_map(64, 8);
    let batch = map.insert(&mk_key(1), &mk_value(1, 8)).unwrap();
    let mut copy = map.clone();
    assert_eq!(all_values(&copy), all_values(&map));
    let kept = batch.clone();
    assert_eq!(kept, batch);
    copy.delete(&mk_key(1)).unwrap();
    assert_ne!(all_values(&copy), all_values(&map));
    assert_eq!(map.delete(&mk_key(1)).unwrap().rows.len(), 1);
    assert_eq!(all_values(&copy), all_values(&map));
}
