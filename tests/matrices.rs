use sparse_linalg::coo_mat::CooMat;
use sparse_linalg::csr_mat::CsrMat;
use sparse_linalg::error::MatError;
use sparse_linalg::vector::Vector;

fn two_by_two() -> CooMat<f64> {
    let mut mat = CooMat::new(2, 2);
    mat.insert(1, 0, 3.).unwrap();
    mat.insert(1, 1, 4.).unwrap();
    mat.insert(0, 0, 1.).unwrap();
    mat.insert(0, 1, 2.).unwrap();
    mat
}

#[test]
fn create_coo_mat() {
    let mat: CooMat<f64> = CooMat::new(3, 3);
    assert_eq!(mat.rows(), 3);
    assert_eq!(mat.columns(), 3);
    assert_eq!(mat.nnz(), 0);
    assert_eq!(mat, CooMat::new(3, 3));
}

#[test]
fn void_coo_to_csr() {
    let mat: CooMat<f64> = CooMat::new(3, 3);
    assert_eq!(
        mat.to_csr(),
        CsrMat {
            rows: 3,
            columns: 3,
            values: vec![],
            columns_index: vec![],
            rows_index: vec![0, 0, 0, 0]
        }
    );
}

#[test]
fn coo_to_csr() {
    let mat = two_by_two();
    assert_eq!(
        mat.to_csr(),
        CsrMat {
            rows: 2,
            columns: 2,
            values: vec![1., 2., 3., 4.],
            columns_index: vec![0, 1, 0, 1],
            rows_index: vec![0, 2, 4]
        }
    );
}

#[test]
fn vector0() {
    assert_eq!(Vector::null(2, 0.), Vector { values: vec![0.; 2] })
}

#[test]
fn removing_a_value_from_a_coomat() {
    let mut mat = CooMat::new(2, 2);
    mat.insert(1, 1, 123.).unwrap();
    mat.drop(1, 1);
    assert_eq!(mat, CooMat::new(2, 2))
}

#[test]
fn matrix_transposition() {
    let mat1 = two_by_two();
    let mut mat2 = CooMat::new(2, 2);
    mat2.insert(0, 1, 3.).unwrap();
    mat2.insert(1, 1, 4.).unwrap();
    mat2.insert(0, 0, 1.).unwrap();
    mat2.insert(1, 0, 2.).unwrap();
    assert_eq!(mat1.transpose(), mat2);
}

#[test]
fn transpose_twice_restores_rectangular() {
    let mut m = CooMat::new(2, 3);
    m.insert(0, 2, 5.).unwrap();
    m.insert(1, 0, -1.).unwrap();
    m.insert(1, 2, 7.).unwrap();
    let t = m.transpose();
    assert_eq!(t.rows(), 3);
    assert_eq!(t.columns(), 2);
    assert_eq!(t.get(2, 0), Some(5.));
    assert_eq!(t.get(0, 1), Some(-1.));
    assert_eq!(t.get(2, 1), Some(7.));
    assert_eq!(t.transpose(), m);
}

#[test]
fn csr_of_two_by_two_scenario() {
    let csr = two_by_two().to_csr();
    assert_eq!(csr.values, vec![1., 2., 3., 4.]);
    assert_eq!(csr.columns_index, vec![0, 1, 0, 1]);
    assert_eq!(csr.rows_index, vec![0, 2, 4]);
}

#[test]
fn csr_keeps_empty_rows_and_sorts() {
    let mut m = CooMat::new(4, 3);
    m.insert(2, 2, 9.).unwrap();
    m.insert(2, 0, 8.).unwrap();
    m.insert(0, 1, 7.).unwrap();
    let csr = m.to_csr();
    assert_eq!(csr.rows_index, vec![0, 1, 1, 3, 3]);
    assert_eq!(csr.columns_index, vec![1, 0, 2]);
    assert_eq!(csr.values, vec![7., 8., 9.]);
}

#[test]
fn csr_dense_matches_coo_dense() {
    let mut m = CooMat::new(3, 2);
    m.insert(2, 1, 4.).unwrap();
    m.insert(0, 0, 1.).unwrap();
    let csr = m.to_csr();
    let mut from_csr = vec![vec![0.; csr.columns]; csr.rows];
    for r in 0..csr.rows {
        for p in csr.rows_index[r]..csr.rows_index[r + 1] {
            from_csr[r][csr.columns_index[p]] = csr.values[p];
        }
    }
    assert_eq!(m.to_dense(0.), from_csr);
    assert_eq!(m.to_dense(0.), vec![vec![1., 0.], vec![0., 0.], vec![0., 4.]]);
}

#[test]
fn insert_replaces_and_get_reads() {
    let mut m = CooMat::new(2, 2);
    assert_eq!(m.get(0, 1), None);
    m.insert(0, 1, 2.5).unwrap();
    m.insert(0, 1, 6.5).unwrap();
    assert_eq!(m.get(0, 1), Some(6.5));
    assert_eq!(m.nnz(), 1);
    assert_eq!(m.get(5, 5), None);
}

#[test]
fn insert_out_of_bounds_is_refused() {
    let mut m = CooMat::new(2, 3);
    assert_eq!(m.insert(2, 0, 1.), Err(MatError::IndexOutOfBounds));
    assert_eq!(m.insert(0, 3, 1.), Err(MatError::IndexOutOfBounds));
    assert_eq!(m, CooMat::new(2, 3));
}

#[test]
fn drop_of_absent_entry_changes_nothing() {
    let mut m = two_by_two();
    m.drop(5, 5);
    assert_eq!(m, two_by_two());
}

#[test]
fn drop_row_shifts_later_rows() {
    let mut m = CooMat::new(3, 2);
    m.insert(0, 0, 1.).unwrap();
    m.insert(1, 1, 2.).unwrap();
    m.insert(2, 0, 3.).unwrap();
    m.drop_row(1).unwrap();
    let mut expected = CooMat::new(2, 2);
    expected.insert(0, 0, 1.).unwrap();
    expected.insert(1, 0, 3.).unwrap();
    assert_eq!(m, expected);
}

#[test]
fn drop_row_then_readd_matches_never_having_it() {
    let mut m = CooMat::new(3, 3);
    m.insert(1, 2, 5.).unwrap();
    m.insert(2, 1, 6.).unwrap();
    m.insert(0, 0, 7.).unwrap();
    m.drop_row(0).unwrap();
    let mut never = CooMat::new(2, 3);
    never.insert(0, 2, 5.).unwrap();
    never.insert(1, 1, 6.).unwrap();
    assert_eq!(m, never);
}

#[test]
fn drop_row_out_of_range_is_refused() {
    let mut m = two_by_two();
    assert_eq!(m.drop_row(2), Err(MatError::IndexOutOfBounds));
    assert_eq!(m, two_by_two());
    let mut empty: CooMat<f64> = CooMat::new(0, 0);
    assert_eq!(empty.drop_row(0), Err(MatError::IndexOutOfBounds));
}

#[test]
fn drop_col_shifts_later_columns() {
    let mut m = CooMat::new(2, 3);
    m.insert(0, 0, 1.).unwrap();
    m.insert(0, 1, 2.).unwrap();
    m.insert(1, 2, 3.).unwrap();
    m.drop_col(1).unwrap();
    let mut expected = CooMat::new(2, 2);
    expected.insert(0, 0, 1.).unwrap();
    expected.insert(1, 1, 3.).unwrap();
    assert_eq!(m, expected);
    assert_eq!(m.drop_col(2), Err(MatError::IndexOutOfBounds));
}

#[test]
fn to_scalar_of_one_by_one() {
    let mut m = CooMat::new(1, 1);
    assert_eq!(m.to_scalar(), Ok(None));
    m.insert(0, 0, 4.).unwrap();
    assert_eq!(m.to_scalar(), Ok(Some(4.)));
    assert_eq!(two_by_two().to_scalar(), Err(MatError::NotAScalar));
}

#[test]
fn row_span_covers_one_row() {
    let m = two_by_two();
    assert_eq!(m.row_span(0), (0, 2));
    assert_eq!(m.row_span(1), (2, 4));
    assert_eq!(m.row_span(7), (4, 4));
    assert_eq!(m.entry(2), (1, 0, 3.));
}

#[test]
fn product_terms_with_identity() {
    let a = two_by_two();
    let mut id = CooMat::new(2, 2);
    id.insert(0, 0, 1.).unwrap();
    id.insert(1, 1, 1.).unwrap();
    let terms = a.product_terms(&id).unwrap();
    assert_eq!(terms, vec![(0, 0, 0, 0), (0, 1, 1, 1), (1, 0, 2, 0), (1, 1, 3, 1)]);
}

#[test]
fn product_terms_visit_only_meeting_pairs() {
    let mut a = CooMat::new(2, 3);
    a.insert(0, 2, 1.).unwrap();
    a.insert(1, 0, 2.).unwrap();
    let mut b = CooMat::new(3, 2);
    b.insert(2, 0, 3.).unwrap();
    b.insert(2, 1, 4.).unwrap();
    b.insert(1, 1, 5.).unwrap();
    let terms = a.product_terms(&b).unwrap();
    assert_eq!(terms, vec![(0, 0, 0, 1), (0, 1, 0, 2)]);
}

#[test]
fn product_terms_shape_mismatch() {
    let a: CooMat<f64> = CooMat::new(2, 3);
    let b: CooMat<f64> = CooMat::new(2, 3);
    assert_eq!(a.product_terms(&b), Err(MatError::DimensionMismatch));
}

#[test]
fn vector_lengths() {
    let v = Vector { values: vec![1., 2.] };
    let w = Vector { values: vec![1.] };
    assert_eq!(v.len(), 2);
    assert!(!v.is_empty());
    assert!(Vector::<f64>::null(0, 0.).is_empty());
    assert_eq!(v.check_same_len(&v), Ok(2));
    assert_eq!(v.check_same_len(&w), Err(MatError::ShapeMismatch));
}
