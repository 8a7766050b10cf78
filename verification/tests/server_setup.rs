//! Setup of a server.
use ikpir::cuckoo_store::MapError;
use ikpir::matrix::{Matrix, MatrixError};
use ikpir::params::{Arity, FilterParams, ParamError, LWE_DIMENSION};
use ikpir::serialization::{batch_hint_from_bytes, batch_hint_to_bytes, params_from_bytes};
use ikpir::server::setup::SetupError;
use ikpir::server::Server;

fn build_db(num: u32, value_len: u32) -> Vec<(Vec<u8>, Vec<u8>)> {
    (0..num)
        .map(|i| {
            let key = format!("key-{i}").into_bytes();
            let value: Vec<u8> = (0..value_len as usize)
                .map(|j| ((i as usize).wrapping_add(j)) as u8)
                .collect();
            (key, value)
        })
        .collect()
}

#[test]
fn setup_produces_k_matrices_of_expected_shape() {
    let params = FilterParams::recommended(Arity::Segmented4, 64, 8).expect("params");
    let db = build_db(64, 8);
    let (server, _, _) = Server::setup(&params, &[1u8; 32], &db).ok().expect("setup");

    let k = params.degree() as usize;
    let seg = params.seg() as usize;
    let row_elems_bucket = params.row_elems_bucket() as usize;

    assert_eq!(k, 4);
    for j in 0..k {
        assert_eq!(
            server.segment_a(j).rows() as usize,
            LWE_DIMENSION,
            "A_{j} rows"
        );
        assert_eq!(server.segment_a(j).cols() as usize, seg, "A_{j} cols");
        assert_eq!(server.segment_d(j).rows() as usize, seg, "D_{j} rows");
        assert_eq!(
            server.segment_d(j).cols() as usize,
            row_elems_bucket,
            "D_{j} cols"
        );
        assert_eq!(
            server.segment_h(j).rows() as usize,
            LWE_DIMENSION,
            "H_{j} rows"
        );
        assert_eq!(
            server.segment_h(j).cols() as usize,
            row_elems_bucket,
            "H_{j} cols"
        );
    }
}

#[test]
fn setup_h_equals_a_times_d_per_segment() {
    let params = FilterParams::recommended(Arity::Segmented4, 64, 8).expect("params");
    let db = build_db(64, 8);
    let (server, _, _) = Server::setup(&params, &[2u8; 32], &db).ok().expect("setup");
    let k = params.degree() as usize;
    for j in 0..k {
        let expected = server
            .segment_a(j)
            .mul(server.segment_d(j))
            .expect("recompute");
        assert_eq!(server.segment_h(j), &expected, "H_{j} != A_{j}·D_{j}");
    }
}

#[test]
fn setup_round_trip_hint_bytes() {
    let params = FilterParams::recommended(Arity::Segmented4, 64, 8).expect("params");
    let db = build_db(64, 8);
    let (server, hint_bytes, _) = Server::setup(&params, &[3u8; 32], &db).ok().expect("setup");
    let k = params.degree();
    let hints = batch_hint_from_bytes(&hint_bytes, k).expect("parse hints");
    assert_eq!(hints.len(), k as usize);
    for (j, hint) in hints.iter().enumerate() {
        assert_eq!(hint, server.segment_h(j), "hint {j} round-trip mismatch");
    }
    // Re-serialise and check equality.
    let h_refs: Vec<_> = (0..k as usize)
        .map(|j| server.segment_h(j).clone())
        .collect();
    let re_bytes = batch_hint_to_bytes(&h_refs);
    assert_eq!(hint_bytes, re_bytes);
}

#[test]
fn setup_fails_cleanly_on_map_full() {
    // Use tiny params and try to insert far too many entries.
    let params = FilterParams::recommended(Arity::Segmented4, 4, 4).expect("params");
    // Build 200 entries — far exceeds the 4-item capacity.
    let db = build_db(200, 4);
    let err = Server::setup(&params, &[0u8; 32], &db);
    assert!(err.is_err(), "expected setup to fail on oversized db");
}

#[test]
fn every_setup_error_has_an_input() {
    let params = FilterParams {
        arity: Arity::Standard4,
        num_buckets: 64,
        fingerprint_bits: 12,
        row_elems: 8,
        mat_elem_bit_len: 8,
        value_len: 8,
    };
    assert_eq!(
        Server::setup(&params, &[0u8; 32], &[]).err(),
        Some(SetupError::Params(ParamError::ArityNotSupportedForPir))
    );
    let params = FilterParams::recommended(Arity::Segmented4, 64, 8).expect("params");
    let short = vec![(b"key".to_vec(), vec![1u8; 7])];
    assert_eq!(
        Server::setup(&params, &[0u8; 32], &short).err(),
        Some(SetupError::CuckooMap(MapError::ValueLength))
    );
    let twice = vec![
        (b"key".to_vec(), vec![1u8; 8]),
        (b"key".to_vec(), vec![1u8; 8]),
    ];
    assert_eq!(
        Server::setup(&params, &[0u8; 32], &twice).err(),
        Some(SetupError::CuckooMap(MapError::Duplicate))
    );
    assert_eq!(
        SetupError::from(MapError::NotFound).message(),
        "cuckoo map error: delete target not found in any candidate bucket"
    );
    assert_eq!(
        SetupError::from(ParamError::EmptyValue).message(),
        "parameter error: value_len must be non-zero"
    );
    assert_eq!(
        SetupError::from(MatrixError::OutOfBounds).message(),
        "matrix error: matrix index out of bounds"
    );
}

#[test]
fn setup_hands_out_the_parameters_and_the_public_matrices() {
    let params = FilterParams::recommended(Arity::Segmented3, 20, 4).expect("params");
    let seed = [6u8; 32];
    let (server, _, params_bytes) = Server::setup(&params, &seed, &build_db(20, 4))
        .ok()
        .expect("setup");
    assert_eq!(params_from_bytes(&params_bytes), Ok(params));
    assert_eq!(server.seed_mu(), &seed);
    let seeds = ikpir::hash::derive_segment_seeds(&seed, 3);
    for j in 0..3 {
        let a = Matrix::from_seed(LWE_DIMENSION as u32, params.seg(), &seeds[j]).unwrap();
        assert_eq!(server.segment_a(j), &a);
    }
}
