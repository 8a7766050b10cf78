//! Row updates of a server.
use ikpir::backend::prg::{Keystream, WordSource};
use ikpir::cuckoo_store::{MapError, PerSegmentRow};
use ikpir::matrix::MatrixError;
use ikpir::params::{Arity, FilterParams};
use ikpir::server::update::UpdateError;
use ikpir::server::Server;

fn build_db(num: u32, value_len: u32) -> Vec<(Vec<u8>, Vec<u8>)> {
    (0..num)
        .map(|i| {
            let key = format!("key-{i}").into_bytes();
            let value: Vec<u8> = (0..value_len as usize)
                .map(|j| ((i as usize).wrapping_add(j.wrapping_mul(7))) as u8)
                .collect();
            (key, value)
        })
        .collect()
}

fn check_invariant(server: &Server) {
    for j in 0..server.params().degree() as usize {
        let expected = server
            .segment_a(j)
            .mul(server.segment_d(j))
            .expect("recompute h");
        assert_eq!(
            server.segment_h(j),
            &expected,
            "H_{j} != A_{j}·D_{j} invariant violated"
        );
    }
}

#[test]
fn apply_empty_is_noop() {
    let params = FilterParams::recommended(Arity::Segmented4, 32, 4).expect("params");
    let db = build_db(32, 4);
    let (mut server, _, _) = Server::setup(&params, &[5u8; 32], &db).ok().expect("setup");
    let h_before: Vec<_> = (0..params.degree() as usize)
        .map(|j| server.segment_h(j).clone())
        .collect();
    let d_before: Vec<_> = (0..params.degree() as usize)
        .map(|j| server.segment_d(j).clone())
        .collect();
    server.apply_row_updates(&[]).expect("empty update");
    for j in 0..params.degree() as usize {
        assert_eq!(server.segment_h(j), &h_before[j]);
        assert_eq!(server.segment_d(j), &d_before[j]);
    }
}

#[test]
fn apply_single_row_matches_full_recompute_seg4() {
    let mut rng = Keystream::from_seed([7u8; 32]);
    let params = FilterParams::recommended(Arity::Segmented4, 64, 8).expect("params");
    let db = build_db(64, 8);
    let (mut server, _, _) = Server::setup(&params, &[11u8; 32], &db).ok().expect("setup");

    let mask: u32 = (1u32 << params.mat_elem_bit_len) - 1;
    let row_elems_bucket = params.row_elems_bucket() as usize;

    let update = PerSegmentRow {
        segment_idx: 0,
        row_local_idx: 0,
        new_payload: (0..row_elems_bucket)
            .map(|_| rng.next_u32() & mask)
            .collect(),
    };
    server.apply_row_updates(&[update]).expect("apply");
    check_invariant(&server);
}

#[test]
fn apply_single_row_matches_full_recompute_seg2() {
    let mut rng = Keystream::from_seed([42u8; 32]);
    let params = FilterParams::recommended(Arity::Segmented2, 64, 8).expect("params");
    let db = build_db(64, 8);
    let (mut server, _, _) = Server::setup(&params, &[22u8; 32], &db).ok().expect("setup");

    let mask: u32 = (1u32 << params.mat_elem_bit_len) - 1;
    let row_elems_bucket = params.row_elems_bucket() as usize;
    let update = PerSegmentRow {
        segment_idx: 0,
        row_local_idx: 0,
        new_payload: (0..row_elems_bucket)
            .map(|_| rng.next_u32() & mask)
            .collect(),
    };
    server.apply_row_updates(&[update]).expect("apply");
    check_invariant(&server);
}

#[test]
fn apply_single_row_matches_full_recompute_seg3() {
    let mut rng = Keystream::from_seed([99u8; 32]);
    let params = FilterParams::recommended(Arity::Segmented3, 64, 8).expect("params");
    let db = build_db(64, 8);
    let (mut server, _, _) = Server::setup(&params, &[33u8; 32], &db).ok().expect("setup");

    let mask: u32 = (1u32 << params.mat_elem_bit_len) - 1;
    let row_elems_bucket = params.row_elems_bucket() as usize;
    let update = PerSegmentRow {
        segment_idx: 1,
        row_local_idx: 0,
        new_payload: (0..row_elems_bucket)
            .map(|_| rng.next_u32() & mask)
            .collect(),
    };
    server.apply_row_updates(&[update]).expect("apply");
    check_invariant(&server);
}

#[test]
fn apply_batch_same_segment_different_rows() {
    let mut rng = Keystream::from_seed([17u8; 32]);
    let params = FilterParams::recommended(Arity::Segmented4, 64, 8).expect("params");
    let db = build_db(64, 8);
    let (mut server, _, _) = Server::setup(&params, &[55u8; 32], &db).ok().expect("setup");

    let mask: u32 = (1u32 << params.mat_elem_bit_len) - 1;
    let row_elems_bucket = params.row_elems_bucket() as usize;
    let updates: Vec<PerSegmentRow> = (0..4)
        .map(|row| PerSegmentRow {
            segment_idx: 2,
            row_local_idx: row,
            new_payload: (0..row_elems_bucket)
                .map(|_| rng.next_u32() & mask)
                .collect(),
        })
        .collect();
    server.apply_row_updates(&updates).expect("apply batch");
    check_invariant(&server);
}

#[test]
fn apply_batch_across_all_segments() {
    let mut rng = Keystream::from_seed([31u8; 32]);
    let params = FilterParams::recommended(Arity::Segmented4, 64, 8).expect("params");
    let db = build_db(64, 8);
    let (mut server, _, _) = Server::setup(&params, &[77u8; 32], &db).ok().expect("setup");

    let mask: u32 = (1u32 << params.mat_elem_bit_len) - 1;
    let row_elems_bucket = params.row_elems_bucket() as usize;
    let updates: Vec<PerSegmentRow> = (0..params.degree() as u8)
        .map(|seg_idx| PerSegmentRow {
            segment_idx: seg_idx,
            row_local_idx: 0,
            new_payload: (0..row_elems_bucket)
                .map(|_| rng.next_u32() & mask)
                .collect(),
        })
        .collect();
    server
        .apply_row_updates(&updates)
        .expect("apply across all segments");
    check_invariant(&server);
}

#[test]
fn apply_sequential_same_cell_last_wins() {
    let mut rng = Keystream::from_seed([13u8; 32]);
    let params = FilterParams::recommended(Arity::Segmented4, 32, 4).expect("params");
    let db = build_db(32, 4);
    let (mut server, _, _) = Server::setup(&params, &[3u8; 32], &db).ok().expect("setup");

    let mask: u32 = (1u32 << params.mat_elem_bit_len) - 1;
    let row_elems_bucket = params.row_elems_bucket() as usize;
    let first_payload: Vec<u32> = (0..row_elems_bucket)
        .map(|_| rng.next_u32() & mask)
        .collect();
    let second_payload: Vec<u32> = (0..row_elems_bucket)
        .map(|_| rng.next_u32() & mask)
        .collect();

    let updates = vec![
        PerSegmentRow {
            segment_idx: 0,
            row_local_idx: 0,
            new_payload: first_payload,
        },
        PerSegmentRow {
            segment_idx: 0,
            row_local_idx: 0,
            new_payload: second_payload.clone(),
        },
    ];
    server.apply_row_updates(&updates).expect("apply");

    assert_eq!(
        server.segment_d(0).row(0).expect("row"),
        second_payload.as_slice(),
        "last update must win"
    );
    check_invariant(&server);
}

#[test]
fn apply_row_oob_is_error() {
    let params = FilterParams::recommended(Arity::Segmented4, 32, 4).expect("params");
    let db = build_db(32, 4);
    let (mut server, _, _) = Server::setup(&params, &[3u8; 32], &db).ok().expect("setup");

    let bad = PerSegmentRow {
        segment_idx: 0,
        row_local_idx: params.seg(),
        new_payload: vec![0u32; params.row_elems_bucket() as usize],
    };
    assert_eq!(
        server.apply_row_updates(&[bad]),
        Err(UpdateError::RowIndexOutOfBounds)
    );
}

#[test]
fn apply_segment_oob_is_error() {
    let params = FilterParams::recommended(Arity::Segmented4, 32, 4).expect("params");
    let db = build_db(32, 4);
    let (mut server, _, _) = Server::setup(&params, &[3u8; 32], &db).ok().expect("setup");

    let bad = PerSegmentRow {
        segment_idx: params.degree() as u8,
        row_local_idx: 0,
        new_payload: vec![0u32; params.row_elems_bucket() as usize],
    };
    assert_eq!(
        server.apply_row_updates(&[bad]),
        Err(UpdateError::SegmentOutOfBounds)
    );
}

#[test]
fn apply_shape_mismatch_is_error() {
    let params = FilterParams::recommended(Arity::Segmented4, 32, 4).expect("params");
    let db = build_db(32, 4);
    let (mut server, _, _) = Server::setup(&params, &[3u8; 32], &db).ok().expect("setup");

    let bad = PerSegmentRow {
        segment_idx: 0,
        row_local_idx: 0,
        new_payload: vec![0u32; params.row_elems_bucket() as usize + 1],
    };
    assert_eq!(
        server.apply_row_updates(&[bad]),
        Err(UpdateError::ShapeMismatch)
    );
}

#[test]
fn apply_payload_out_of_range_is_error() {
    let params = FilterParams::recommended(Arity::Segmented4, 32, 4).expect("params");
    let db = build_db(32, 4);
    let (mut server, _, _) = Server::setup(&params, &[3u8; 32], &db).ok().expect("setup");

    let mask: u32 = (1u32 << params.mat_elem_bit_len) - 1;
    let mut payload = vec![0u32; params.row_elems_bucket() as usize];
    payload[0] = mask + 1;

    let bad = PerSegmentRow {
        segment_idx: 0,
        row_local_idx: 0,
        new_payload: payload,
    };
    assert_eq!(
        server.apply_row_updates(&[bad]),
        Err(UpdateError::PayloadOutOfRange)
    );
}

#[test]
fn hint_bytes_differ_after_nontrivial_update() {
    let params = FilterParams::recommended(Arity::Segmented4, 32, 4).expect("params");
    let db = build_db(32, 4);
    let seed_mu = [0x11u8; 32];
    let (mut server, _, _) = Server::setup(&params, &seed_mu, &db).ok().expect("setup");

    let hint_before: Vec<_> = (0..params.degree() as usize)
        .map(|j| server.segment_h(j).as_slice().to_vec())
        .collect();

    // Flip the first element of segment 0, row 0 to a different value.
    let mask: u32 = (1u32 << params.mat_elem_bit_len) - 1;
    let original = server.segment_d(0).row(0).expect("row 0")[0];
    let new_val = {
        let v = (original.wrapping_add(1)) & mask;
        if v == original {
            (original.wrapping_add(2)) & mask
        } else {
            v
        }
    };
    let mut new_row = server.segment_d(0).row(0).expect("row 0").to_vec();
    new_row[0] = new_val;
    server
        .apply_row_updates(&[PerSegmentRow {
            segment_idx: 0,
            row_local_idx: 0,
            new_payload: new_row,
        }])
        .expect("apply");

    // At least one segment's hint must have changed.
    let changed = (0..params.degree() as usize)
        .any(|j| server.segment_h(j).as_slice() != hint_before[j].as_slice());
    assert!(changed, "no hint changed after modifying D[0][0]");
    check_invariant(&server);
}

#[test]
fn insert_duplicate_is_rejected() {
    let params = FilterParams::recommended(Arity::Segmented4, 32, 8).expect("params");
    let db: Vec<(Vec<u8>, Vec<u8>)> = (0..32u32)
        .map(|i| {
            let value: Vec<u8> = (0..8usize)
                .map(|j| ((i as usize).wrapping_add(j.wrapping_mul(3))) as u8)
                .collect();
            (format!("key-{i}").into_bytes(), value)
        })
        .collect();
    let (mut server, _, _) = Server::setup(&params, &[0u8; 32], &db).ok().expect("setup");

    // Inserting the exact same (key, value) pair that was loaded during setup must fail.
    let key = b"key-0".to_vec();
    let val: Vec<u8> = (0..8)
        .map(|j: usize| (0usize.wrapping_add(j.wrapping_mul(3))) as u8)
        .collect();
    let err = server.insert(&key, &val);
    assert!(err.is_err(), "inserting a duplicate (key, val) must fail");
    assert_eq!(err, Err(MapError::Duplicate));
}

#[test]
fn delete_unknown_key_is_error() {
    let params = FilterParams::recommended(Arity::Segmented4, 32, 8).expect("params");
    let db = build_db(32, 8);
    let (mut server, _, _) = Server::setup(&params, &[0u8; 32], &db).ok().expect("setup");

    let err = server.delete(b"never-inserted");
    assert!(err.is_err(), "deleting a non-existent key must fail");
    assert_eq!(err, Err(MapError::NotFound));
}

#[test]
fn apply_row_updates_segment_oob_is_error() {
    let params = FilterParams::recommended(Arity::Segmented4, 32, 4).expect("params");
    let db = build_db(32, 4);
    let (mut server, _, _) = Server::setup(&params, &[0u8; 32], &db).ok().expect("setup");

    let bad = PerSegmentRow {
        segment_idx: params.degree() as u8,
        row_local_idx: 0,
        new_payload: vec![0u32; params.row_elems_bucket() as usize],
    };
    assert_eq!(
        server.apply_row_updates(&[bad]),
        Err(UpdateError::SegmentOutOfBounds)
    );
}

/// A bad update anywhere in a batch leaves everything as it was.
#[test]
fn a_refused_batch_changes_nothing() {
    let params = FilterParams::recommended(Arity::Segmented4, 32, 4).expect("params");
    let (mut server, _, _) = Server::setup(&params, &[3u8; 32], &build_db(32, 4))
        .ok()
        .expect("setup");
    let width = params.row_elems_bucket() as usize;
    let before: Vec<_> = (0..4)
        .map(|j| (server.segment_d(j).clone(), server.segment_h(j).clone()))
        .collect();
    let good = PerSegmentRow {
        segment_idx: 1,
        row_local_idx: 0,
        new_payload: vec![1u32; width],
    };
    let bad = PerSegmentRow {
        segment_idx: 1,
        row_local_idx: 1,
        new_payload: vec![1u32; width - 1],
    };
    assert_eq!(
        server.apply_row_updates(&[good, bad]),
        Err(UpdateError::ShapeMismatch)
    );
    for j in 0..4 {
        assert_eq!(server.segment_d(j), &before[j].0);
        assert_eq!(server.segment_h(j), &before[j].1);
    }
    assert_eq!(
        UpdateError::from(MatrixError::OutOfBounds).message(),
        "matrix error: matrix index out of bounds"
    );
    assert_eq!(
        UpdateError::PayloadOutOfRange.message(),
        "payload value exceeds 2^mat_elem_bit_len - 1"
    );
}

#[test]
fn operations_keep_hints_and_databases_in_step() {
    let params = FilterParams::recommended(Arity::Segmented2, 64, 4).expect("params");
    let (mut server, _, _) = Server::setup(&params, &[8u8; 32], &build_db(32, 4))
        .ok()
        .expect("setup");
    for i in 0..20u32 {
        let key = format!("new-{i}").into_bytes();
        let batch = server.insert(&key, &[i as u8; 4]).expect("insert");
        for row in &batch.rows {
            let d = server.segment_d(row.segment_idx as usize);
            assert_eq!(d.row(row.row_local_idx).unwrap(), &row.new_payload[..]);
        }
        server.update_value(&key, &[7u8; 4]).expect("update");
        if i % 2 == 0 {
            server.delete(&key).expect("delete");
        }
    }
    assert_eq!(
        server.update_value(b"new-1", &[7u8; 3]),
        Err(MapError::ValueLength)
    );
    check_invariant(&server);
}
