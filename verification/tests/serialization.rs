//! Encoded parameters, matrices and batches.
use ikpir::matrix::{Matrix, MatrixError};
use ikpir::params::{Arity, FilterParams};
use ikpir::serialization::{
    batch_hint_from_bytes, batch_hint_to_bytes, batch_query_from_bytes, batch_query_to_bytes,
    batch_response_from_bytes, batch_response_to_bytes, matrix_from_bytes, matrix_to_bytes,
    params_from_bytes, params_to_bytes, SerdeError,
};

fn make_params(arity: Arity) -> FilterParams {
    if arity.is_segmented() {
        FilterParams::recommended(arity, 256, 32).unwrap()
    } else {
        FilterParams {
            arity,
            num_buckets: 256,
            fingerprint_bits: 12,
            row_elems: 32,
            mat_elem_bit_len: 8,
            value_len: 32,
        }
    }
}

#[test]
fn params_round_trip_all_arities() {
    for &a in &[
        Arity::Standard2,
        Arity::Segmented2,
        Arity::Standard3,
        Arity::Segmented3,
        Arity::Standard4,
        Arity::Segmented4,
    ] {
        let p = make_params(a);
        let bytes = params_to_bytes(&p);
        assert_eq!(bytes.len(), 20);
        let got = params_from_bytes(&bytes).unwrap();
        assert_eq!(got, p);
    }
}

#[test]
fn params_rejects_bad_magic() {
    let p = FilterParams::recommended(Arity::Segmented4, 256, 32).unwrap();
    let mut bytes = params_to_bytes(&p);
    bytes[0] ^= 1;
    assert!(matches!(
        params_from_bytes(&bytes),
        Err(SerdeError::BadMagic)
    ));
}

#[test]
fn params_rejects_bad_version() {
    let p = FilterParams::recommended(Arity::Segmented4, 256, 32).unwrap();
    let mut bytes = params_to_bytes(&p);
    bytes[4] = 42;
    assert!(matches!(
        params_from_bytes(&bytes),
        Err(SerdeError::BadVersion)
    ));
}

#[test]
fn matrix_round_trip() {
    let m = Matrix::from_seed(7, 13, &[3u8; 32]).unwrap();
    let bytes = matrix_to_bytes(&m);
    let got = matrix_from_bytes(&bytes).unwrap();
    assert_eq!(got, m);
}

#[test]
fn batch_query_round_trip() {
    let per_seg: Vec<Vec<u32>> = (0..4)
        .map(|j| (0..50).map(|i| (j as u32) * 1000 + i).collect())
        .collect();
    let bytes = batch_query_to_bytes(&per_seg);
    let got = batch_query_from_bytes(&bytes, 4, 50).unwrap();
    assert_eq!(got, per_seg);
}

#[test]
fn batch_query_rejects_wrong_size() {
    let per_seg: Vec<Vec<u32>> = (0..4).map(|_| vec![0u32; 50]).collect();
    let bytes = batch_query_to_bytes(&per_seg);
    assert!(batch_query_from_bytes(&bytes, 4, 49).is_err());
    assert!(batch_query_from_bytes(&bytes, 3, 50).is_err());
}

#[test]
fn batch_response_round_trip() {
    let per_seg: Vec<Vec<u32>> = (0..3)
        .map(|j| (0..20).map(|i| (j * 17 + i) as u32).collect())
        .collect();
    let bytes = batch_response_to_bytes(&per_seg);
    let got = batch_response_from_bytes(&bytes, 3, 20).unwrap();
    assert_eq!(got, per_seg);
}

#[test]
fn batch_hint_round_trip_three_matrices() {
    let m0 = Matrix::from_seed(3, 4, &[1u8; 32]).unwrap();
    let m1 = Matrix::from_seed(3, 4, &[2u8; 32]).unwrap();
    let m2 = Matrix::from_seed(3, 4, &[3u8; 32]).unwrap();
    let bytes = batch_hint_to_bytes(&[m0.clone(), m1.clone(), m2.clone()]);
    let got = batch_hint_from_bytes(&bytes, 3).unwrap();
    assert_eq!(got, vec![m0, m1, m2]);
}

#[test]
fn batch_hint_rejects_trailing_bytes() {
    let m = Matrix::from_seed(3, 4, &[7u8; 32]).unwrap();
    let mut bytes = batch_hint_to_bytes(&[m]);
    bytes.push(0);
    assert!(batch_hint_from_bytes(&bytes, 1).is_err());
}

#[test]
fn params_bytes_are_exact() {
    let p = FilterParams {
        arity: Arity::Segmented3,
        num_buckets: 0x0102_0304,
        fingerprint_bits: 12,
        row_elems: 5,
        mat_elem_bit_len: 8,
        value_len: 0x0a00,
    };
    assert_eq!(
        params_to_bytes(&p),
        vec![
            b'I', b'K', b'P', b'R', 2, 3, 12, 8, 4, 3, 2, 1, 5, 0, 0, 0, 0, 0x0a, 0, 0
        ]
    );
}

#[test]
fn every_decoding_error_has_an_input() {
    let p = make_params(Arity::Segmented4);
    let bytes = params_to_bytes(&p);
    assert_eq!(params_from_bytes(&bytes[..19]), Err(SerdeError::TooShort));
    let mut bad = bytes.clone();
    bad[5] = 6;
    assert_eq!(params_from_bytes(&bad), Err(SerdeError::BadArity));
    let mut bad = bytes.clone();
    bad[6] = 0;
    assert_eq!(params_from_bytes(&bad), Err(SerdeError::BadParams));
    assert_eq!(
        SerdeError::BadMatrix(MatrixError::LengthMismatch).message(),
        "matrix error: backing buffer length does not match dimensions"
    );
}

#[test]
fn matrix_bytes_are_exact() {
    let m = Matrix::from_elems(1, 2, vec![1, 0x0203_0405]).unwrap();
    assert_eq!(
        matrix_to_bytes(&m),
        vec![1, 0, 0, 0, 2, 0, 0, 0, 1, 0, 0, 0, 5, 4, 3, 2]
    );
}
