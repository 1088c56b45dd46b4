use transformer::matrix::Matrix;

#[test]
fn zeros_has_correct_shape() {
    let m = Matrix::<f32>::zeros(3, 4);
    assert_eq!(m.shape(), (3, 4));
    assert!(m.data().iter().all(|&v| v == 0.0));
}

#[test]
fn jagged_roundtrip_preserves_values() {
    let jagged = vec![vec![1.0, 2.0, 3.0], vec![4.0, 5.0, 6.0]];
    let mat = Matrix::from_jagged(&jagged);
    assert_eq!(mat.shape(), (2, 3));
    assert_eq!(mat.to_jagged(), jagged);
}

#[test]
fn row_access_returns_correct_slice() {
    let mat = Matrix::from_jagged(&[vec![1.0, 2.0], vec![3.0, 4.0], vec![5.0, 6.0]]);
    assert_eq!(mat.row(0), &[1.0, 2.0]);
    assert_eq!(mat.row(2), &[5.0, 6.0]);
    assert_eq!(mat.get(1, 1), 4.0);
}

#[test]
fn transpose_swaps_rows_and_cols() {
    let mat = Matrix::from_jagged(&[vec![1.0, 2.0, 3.0], vec![4.0, 5.0, 6.0]]);
    let t = mat.transpose();
    assert_eq!(t.shape(), (3, 2));
    assert_eq!(t.to_jagged(), vec![vec![1.0, 4.0], vec![2.0, 5.0], vec![3.0, 6.0]]);
}

#[test]
fn double_transpose_is_identity() {
    let mat = Matrix::from_jagged(&[vec![1.0, 2.0, 3.0], vec![4.0, 5.0, 6.0]]);
    let tt = mat.transpose().transpose();
    assert_eq!(tt.to_jagged(), mat.to_jagged());
}

#[test]
fn from_flat_constructs_with_given_shape() {
    let m = Matrix::from_flat(vec![1.0, 2.0, 3.0, 4.0, 5.0, 6.0], 2, 3);
    assert_eq!(m.shape(), (2, 3));
    assert_eq!(m.row(1), &[4.0, 5.0, 6.0]);
}

#[test]
fn map_applies_function_to_each_element() {
    let m = Matrix::from_jagged(&[vec![1.0, 2.0], vec![3.0, 4.0]]);
    let m2 = m.map(|v| v * 2.0);
    assert_eq!(m2.to_jagged(), vec![vec![2.0, 4.0], vec![6.0, 8.0]]);
}

#[test]
fn elementwise_with_combines_two_matrices() {
    let a = Matrix::from_jagged(&[vec![1.0, 2.0], vec![3.0, 4.0]]);
    let b = Matrix::from_jagged(&[vec![10.0, 20.0], vec![30.0, 40.0]]);
    let r = a.elementwise_with(&b, |x, y| x * y);
    assert_eq!(r.to_jagged(), vec![vec![10.0, 40.0], vec![90.0, 160.0]]);
}

#[test]
fn transpose_into_matches_transpose() {
    let a = Matrix::from_jagged(&[vec![1.0, 2.0, 3.0], vec![4.0, 5.0, 6.0]]);
    let expected = a.transpose();
    let mut actual = Matrix::<f32>::zeros(3, 2);
    a.transpose_into(&mut actual);
    assert_eq!(actual.to_jagged(), expected.to_jagged());
}

#[test]
fn split_columns_into_matches_split_columns() {
    let m = Matrix::from_jagged(&[
        vec![1.0, 2.0, 3.0, 4.0, 5.0, 6.0],
        vec![7.0, 8.0, 9.0, 10.0, 11.0, 12.0],
    ]);
    let expected = m.split_columns(3);
    let mut actual: Vec<Matrix<f32>> = (0..3).map(|_| Matrix::<f32>::zeros(2, 2)).collect();
    m.split_columns_into(&mut actual);
    for (e, a) in expected.iter().zip(actual.iter()) {
        assert_eq!(e.to_jagged(), a.to_jagged());
    }
}

#[test]
fn concat_columns_into_matches_concat_columns() {
    let a = Matrix::from_jagged(&[vec![1.0, 2.0], vec![7.0, 8.0]]);
    let b = Matrix::from_jagged(&[vec![3.0, 4.0], vec![9.0, 10.0]]);
    let c = Matrix::from_jagged(&[vec![5.0, 6.0], vec![11.0, 12.0]]);
    let expected = Matrix::concat_columns(&[a.clone(), b.clone(), c.clone()]);
    let mut actual = Matrix::<f32>::zeros(2, 6);
    Matrix::concat_columns_into(&[&a, &b, &c], &mut actual);
    assert_eq!(actual.to_jagged(), expected.to_jagged());
}

#[test]
fn ensure_shape_resizes_correctly() {
    let mut m = Matrix::<f32>::zeros(2, 3);
    m.ensure_shape(4, 5);
    assert_eq!(m.shape(), (4, 5));
    assert_eq!(m.data().len(), 20);
    m.ensure_shape(2, 2);
    assert_eq!(m.shape(), (2, 2));
    assert_eq!(m.data().len(), 4);
}

#[test]
fn split_then_concat_columns_is_identity() {
    let m = Matrix::from_jagged(&[
        vec![1.0, 2.0, 3.0, 4.0, 5.0, 6.0],
        vec![7.0, 8.0, 9.0, 10.0, 11.0, 12.0],
    ]);
    let parts = m.split_columns(3);
    assert_eq!(parts.len(), 3);
    assert_eq!(parts[0].to_jagged(), vec![vec![1.0, 2.0], vec![7.0, 8.0]]);
    assert_eq!(parts[1].to_jagged(), vec![vec![3.0, 4.0], vec![9.0, 10.0]]);
    assert_eq!(parts[2].to_jagged(), vec![vec![5.0, 6.0], vec![11.0, 12.0]]);

    let recombined = Matrix::concat_columns(&parts);
    assert_eq!(recombined.to_jagged(), m.to_jagged());
}

#[test]
fn rows_are_sliced_and_padded() {
    let m = Matrix::from_jagged(&[vec![1, 2], vec![3, 4], vec![5, 6]]);
    let s = m.slice_rows(1, 3);
    assert_eq!(s.to_jagged(), vec![vec![3, 4], vec![5, 6]]);
    assert_eq!(m.slice_rows(2, 2).shape(), (0, 2));
    let p = s.pad_rows(3);
    assert_eq!(p.to_jagged(), vec![vec![3, 4], vec![5, 6], vec![0, 0]]);
    assert_eq!(m.pad_rows(1).to_jagged(), vec![vec![1, 2]]);
}

#[test]
fn rows_and_elements_are_changed_in_place() {
    let mut m = Matrix::from_flat(vec![1u64, 2, 3, 4, 5, 6], 2, 3);
    m.set(0, 1, 20);
    assert_eq!(m.data(), &[1, 20, 3, 4, 5, 6]);
    m.row_mut(1)[2] = 60;
    assert_eq!(m.row(1), &[4, 5, 60]);
    m.data_mut()[0] = 10;
    assert_eq!(m.get(0, 0), 10);
    assert_eq!(m.rows(), 2);
    assert_eq!(m.cols(), 3);
    let copy = m.clone();
    assert_eq!(copy.data(), m.data());
    assert_eq!(Matrix::<u64>::default().shape(), (0, 0));
}

#[test]
fn parts_of_a_concatenation_are_cut_out_again() {
    let a = Matrix::from_jagged(&[vec![1, 2], vec![5, 6]]);
    let b = Matrix::from_jagged(&[vec![3, 4], vec![7, 8]]);
    let whole = Matrix::concat_columns(&[a.clone(), b.clone()]);
    assert_eq!(whole.to_jagged(), vec![vec![1, 2, 3, 4], vec![5, 6, 7, 8]]);
    let parts = whole.split_columns(2);
    assert_eq!(parts[0].data(), a.data());
    assert_eq!(parts[1].data(), b.data());
}

#[test]
fn a_large_matrix_is_transposed() {
    let m = Matrix::from_flat((0..600u32).collect(), 20, 30);
    let t = m.transpose();
    for i in 0..20 {
        for j in 0..30 {
            assert_eq!(t.get(j, i), m.get(i, j));
        }
    }
    assert_eq!(t.transpose().data(), m.data());
}

#[test]
fn lists_of_rows_are_transposed() {
    let a = vec![vec![1, 2, 3], vec![4, 5, 6, 7]];
    assert_eq!(
        transformer::utility::transpose(&a),
        vec![vec![1, 4], vec![2, 5], vec![3, 6]]
    );
    let empty: Vec<Vec<u8>> = vec![vec![]];
    assert!(transformer::utility::transpose(&empty).is_empty());
}
