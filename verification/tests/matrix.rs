//! Matrices of residues.
use ikpir::matrix::{vec_add_assign, vec_sub_assign, Matrix, MatrixError};

#[test]
fn zeros_has_expected_shape() {
    let m = Matrix::zeros(3, 4).unwrap();
    assert_eq!(m.rows(), 3);
    assert_eq!(m.cols(), 4);
    assert_eq!(m.as_slice(), &[0u32; 12]);
}

#[test]
fn from_seed_is_deterministic() {
    let a = Matrix::from_seed(5, 7, &[1u8; 32]).unwrap();
    let b = Matrix::from_seed(5, 7, &[1u8; 32]).unwrap();
    assert_eq!(a, b);
    let c = Matrix::from_seed(5, 7, &[2u8; 32]).unwrap();
    assert_ne!(a, c);
}

#[test]
fn mul_multiplies_small_matrices() {
    // Identity × arbitrary = arbitrary.
    let mut id = Matrix::zeros(3, 3).unwrap();
    for i in 0..3 {
        id.set(i, i, 1).unwrap();
    }
    let a = Matrix::from_elems(3, 2, vec![1, 2, u32::MAX, 0, u32::MAX - 1, 100_000]).unwrap();
    let prod = id.mul(&a).unwrap();
    assert_eq!(prod, a);
}

#[test]
fn wrapping_semantics() {
    let a = Matrix::from_elems(1, 2, vec![u32::MAX, u32::MAX]).unwrap();
    let b = Matrix::from_elems(2, 1, vec![1, 1]).unwrap();
    let prod = a.mul(&b).unwrap();
    // (2^32 - 1) + (2^32 - 1) = 2^33 - 2 ≡ -2 mod 2^32 = 2^32 - 2
    assert_eq!(prod.get(0, 0).unwrap(), u32::MAX - 1);
}

#[test]
fn mul_shape_mismatch_is_error() {
    let a = Matrix::zeros(2, 3).unwrap();
    let b = Matrix::zeros(2, 2).unwrap(); // should be 3 rows
    assert!(matches!(a.mul(&b), Err(MatrixError::ShapeMismatch)));
}

#[test]
fn left_mul_row_vec_agrees_with_mul() {
    // Build a small matrix and cross-check.
    let m = Matrix::from_elems(2, 3, vec![1, 2, 3, 4, 5, 6]).unwrap();
    let v = [10u32, 20u32];
    let lhs_as_mat = Matrix::from_elems(1, 2, v.to_vec()).unwrap();
    let mat_product = lhs_as_mat.mul(&m).unwrap();
    let direct = m.left_mul_row_vec(&v).unwrap();
    assert_eq!(direct, mat_product.as_slice());
}

#[test]
fn right_mul_col_vec_agrees_with_mul() {
    let m = Matrix::from_elems(3, 2, vec![1, 2, 3, 4, 5, 6]).unwrap();
    let v = [10u32, 20u32];
    let rhs_as_mat = Matrix::from_elems(2, 1, v.to_vec()).unwrap();
    let mat_product = m.mul(&rhs_as_mat).unwrap();
    let direct = m.right_mul_col_vec(&v).unwrap();
    let expected: Vec<u32> = (0..3).map(|i| mat_product.get(i, 0).unwrap()).collect();
    assert_eq!(direct, expected);
}

#[test]
fn vec_add_sub_round_trip() {
    let mut a = vec![1u32, 2, 3, u32::MAX];
    let b = vec![10u32, 20, 30, 1];
    let original = a.clone();
    vec_add_assign(&mut a, &b);
    vec_sub_assign(&mut a, &b);
    assert_eq!(a, original);
}

#[test]
fn column_matches_get() {
    let m = Matrix::from_elems(3, 4, (0u32..12).collect()).unwrap();
    for c in 0..4u32 {
        let col = m.column(c).unwrap();
        assert_eq!(col.len(), 3);
        for r in 0..3u32 {
            assert_eq!(
                col[r as usize],
                m.get(r, c).unwrap(),
                "mismatch at ({r},{c})"
            );
        }
    }
}

#[test]
fn column_out_of_bounds() {
    let m = Matrix::zeros(2, 3).unwrap();
    assert!(matches!(m.column(3), Err(MatrixError::OutOfBounds)));
}

#[test]
fn errors_name_what_failed() {
    assert_eq!(
        Matrix::from_elems(2, 2, vec![1, 2, 3]),
        Err(MatrixError::LengthMismatch)
    );
    let m = Matrix::from_elems(2, 2, vec![1, 2, 3, 4]).unwrap();
    assert_eq!(m.row(2), Err(MatrixError::OutOfBounds));
    assert_eq!(m.get(0, 2), Err(MatrixError::OutOfBounds));
    assert_eq!(m.left_mul_row_vec(&[1]), Err(MatrixError::ShapeMismatch));
    assert_eq!(m.right_mul_col_vec(&[1]), Err(MatrixError::ShapeMismatch));
    assert_eq!(
        MatrixError::ShapeMismatch.message(),
        "incompatible matrix shapes"
    );
    assert_eq!(
        MatrixError::DimensionOverflow.message(),
        "matrix dimensions overflow usize"
    );
}

#[test]
fn rows_are_read_and_written() {
    let mut m = Matrix::from_elems(2, 3, vec![1, 2, 3, 4, 5, 6]).unwrap();
    assert_eq!(m.row(1).unwrap(), &[4, 5, 6]);
    m.row_mut(0).unwrap()[2] = 9;
    assert_eq!(m.as_slice(), &[1, 2, 9, 4, 5, 6]);
    m.as_mut_slice()[3] = 7;
    assert_eq!(m.get(1, 0), Ok(7));
    assert_eq!(m.set(1, 1, 8), Ok(()));
    assert_eq!(m.set(2, 0, 8), Err(MatrixError::OutOfBounds));
    assert_eq!(m.as_slice(), &[1, 2, 9, 7, 8, 6]);
    assert_eq!(m.num_elems(), 6);
    assert_eq!(m.num_bytes(), 24);
}
