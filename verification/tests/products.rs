use scirust::matrix::algorithms;
use scirust::matrix::algorithms::{copy_of, dot, mat_mul, transpose, zeros};
use scirust::matrix::blocked::{add_tile, mat_mul_blocked, mat_mul_blocked_by, tile_side};
use scirust::matrix::{
    col, row, BasicMatrix, Create, Matrix, MatrixError, SubMatrix, TransposeMatrix,
};

fn from_rows(rows: &[Vec<i64>]) -> Matrix<i64> {
    let cols = if rows.is_empty() { 0 } else { rows[0].len() };
    Matrix::create(rows.len(), cols, |i, j| rows[i][j])
}

fn to_rows<M: BasicMatrix<i64>>(m: &M) -> Vec<Vec<i64>> {
    (0..m.num_rows())
        .map(|i| (0..m.num_cols()).map(|j| m.get(i, j).unwrap()).collect())
        .collect()
}

fn pattern(rows: usize, cols: usize, seed: i64) -> Matrix<i64> {
    Matrix::create(rows, cols, |i, j| {
        ((i as i64) * 31 + (j as i64) * 17 + seed) % 23 - 11
    })
}

#[test]
fn dot_of_two_small_vectors() {
    let u: Vec<i64> = vec![1, 2, 3];
    let v: Vec<i64> = vec![4, 5, 6];
    assert_eq!(dot(&u, &v), Ok(32));
}

#[test]
fn dot_of_empty_vectors_is_zero() {
    let u: Vec<i64> = vec![];
    let v: Vec<i64> = vec![];
    assert_eq!(dot(&u, &v), Ok(0));
}

#[test]
fn dot_of_vectors_of_different_length_is_refused() {
    let u: Vec<i64> = vec![1, 2, 3];
    let v: Vec<i64> = vec![4, 5];
    assert_eq!(dot(&u, &v), Err(MatrixError::DimensionMismatch));
}

#[test]
fn dot_wraps_in_the_element_type() {
    let u: Vec<i64> = vec![i64::MAX, 1];
    let v: Vec<i64> = vec![2, 3];
    assert_eq!(dot(&u, &v), Ok(i64::MAX.wrapping_mul(2).wrapping_add(3)));
}

#[test]
fn dot_of_a_row_and_a_column() {
    let a = from_rows(&[vec![1, 2, 3], vec![4, 5, 6]]);
    let b = from_rows(&[vec![7, 8], vec![9, 10], vec![11, 12]]);
    let u = row(&a, 1).unwrap();
    let v = col(&b, 0).unwrap();
    assert_eq!(dot(&u, &v), Ok(4 * 7 + 5 * 9 + 6 * 11));
}

#[test]
fn mat_mul_of_two_small_matrices() {
    let a = from_rows(&[vec![1, 2, 3], vec![4, 5, 6]]);
    let b = from_rows(&[vec![7, 8], vec![9, 10], vec![11, 12]]);
    let c = mat_mul(&a, &b).unwrap();
    assert_eq!(to_rows(&c), vec![vec![58, 64], vec![139, 154]]);
}

#[test]
fn mat_mul_with_mismatched_dimensions_is_refused() {
    let a = pattern(2, 3, 1);
    let b = pattern(2, 3, 2);
    assert!(matches!(mat_mul(&a, &b), Err(MatrixError::DimensionMismatch)));
    assert!(matches!(mat_mul_blocked(&a, &b), Err(MatrixError::DimensionMismatch)));
    assert!(matches!(
        mat_mul_blocked_by(&a, &b, 2),
        Err(MatrixError::DimensionMismatch)
    ));
}

#[test]
fn mat_mul_with_an_empty_shared_dimension_is_zero() {
    let a = pattern(2, 0, 1);
    let b = pattern(0, 3, 2);
    let c = mat_mul(&a, &b).unwrap();
    assert_eq!(to_rows(&c), vec![vec![0, 0, 0], vec![0, 0, 0]]);
    let d = mat_mul_blocked_by(&a, &b, 4).unwrap();
    assert_eq!(to_rows(&d), to_rows(&c));
}

#[test]
fn mat_mul_takes_a_transpose_view() {
    let l = from_rows(&[vec![2, 0, 0], vec![6, 1, 0], vec![-8, 5, 3]]);
    let lt = TransposeMatrix(&l);
    let a = mat_mul(&l, &lt).unwrap();
    assert_eq!(
        to_rows(&a),
        vec![vec![4, 12, -16], vec![12, 37, -43], vec![-16, -43, 98]]
    );
}

#[test]
fn mat_mul_takes_subblock_views() {
    let a = pattern(5, 6, 3);
    let b = pattern(6, 4, 4);
    let sa = SubMatrix(&a, 1, 2, 3, 4).unwrap();
    let sb = SubMatrix(&b, 2, 1, 4, 2).unwrap();
    let c = mat_mul(&sa, &sb).unwrap();
    let expect = mat_mul(&copy_of(&sa), &copy_of(&sb)).unwrap();
    assert_eq!(to_rows(&c), to_rows(&expect));
    assert_eq!(c.num_rows(), 3);
    assert_eq!(c.num_cols(), 2);
}

#[test]
fn transpose_copies_with_swapped_coordinates() {
    let a = from_rows(&[vec![1, 2, 3], vec![4, 5, 6]]);
    let t = transpose(&a);
    assert_eq!(to_rows(&t), vec![vec![1, 4], vec![2, 5], vec![3, 6]]);
}

#[test]
fn transpose_agrees_with_the_transpose_view() {
    let a = pattern(4, 7, 5);
    let t = transpose(&a);
    let v = TransposeMatrix(&a);
    assert_eq!(to_rows(&t), to_rows(&v));
}

#[test]
fn blocked_product_with_a_ragged_edge_equals_the_naive_product() {
    let a = pattern(10, 10, 6);
    let b = pattern(10, 10, 7);
    let naive = mat_mul(&a, &b).unwrap();
    let blocked = mat_mul_blocked_by(&a, &b, 4).unwrap();
    assert_eq!(to_rows(&blocked), to_rows(&naive));
}

#[test]
fn blocked_product_equals_the_naive_product_for_every_block_size() {
    let a = pattern(7, 9, 8);
    let b = pattern(9, 5, 9);
    let naive = mat_mul(&a, &b).unwrap();
    for bs in 1..12 {
        let blocked = mat_mul_blocked_by(&a, &b, bs).unwrap();
        assert_eq!(to_rows(&blocked), to_rows(&naive));
    }
}

#[test]
fn blocked_product_with_the_default_block_size() {
    let a = pattern(70, 66, 10);
    let b = pattern(66, 65, 11);
    let naive = mat_mul(&a, &b).unwrap();
    let blocked = mat_mul_blocked(&a, &b).unwrap();
    assert_eq!(to_rows(&blocked), to_rows(&naive));
}

#[test]
fn blocked_product_takes_a_transpose_view() {
    let l = pattern(9, 9, 12);
    let lt = TransposeMatrix(&l);
    let naive = mat_mul(&l, &lt).unwrap();
    let blocked = mat_mul_blocked_by(&l, &lt, 4).unwrap();
    assert_eq!(to_rows(&blocked), to_rows(&naive));
}

#[test]
fn blocked_product_wraps_like_the_naive_product() {
    let a: Matrix<i64> = Matrix::create(5, 5, |i, j| i64::MAX - (i * 5 + j) as i64);
    let b: Matrix<i64> = Matrix::create(5, 5, |i, j| i64::MIN + (i * 7 + j) as i64);
    let naive = mat_mul(&a, &b).unwrap();
    let blocked = mat_mul_blocked_by(&a, &b, 2).unwrap();
    assert_eq!(to_rows(&blocked), to_rows(&naive));
}

#[test]
fn add_tile_adds_inside_the_window_only() {
    let mut c = pattern(4, 5, 13);
    let before = to_rows(&c);
    let p = from_rows(&[vec![1, 2], vec![3, 4]]);
    assert_eq!(add_tile(&mut c, &p, 1, 3), Ok(()));
    let after = to_rows(&c);
    for i in 0..4 {
        for j in 0..5 {
            let inside = (1..3).contains(&i) && (3..5).contains(&j);
            let grow = if inside { to_rows(&p)[i - 1][j - 3] } else { 0 };
            assert_eq!(after[i][j], before[i][j] + grow);
        }
    }
    assert_eq!(add_tile(&mut c, &p, 3, 3), Err(MatrixError::IndexOutOfBounds));
    assert_eq!(to_rows(&c), after);
}

#[test]
fn tile_side_is_the_block_size_or_what_is_left() {
    assert_eq!(tile_side(10, 0, 4), 4);
    assert_eq!(tile_side(10, 4, 4), 4);
    assert_eq!(tile_side(10, 8, 4), 2);
    assert_eq!(tile_side(10, 9, 1), 1);
}

#[test]
fn zeros_and_copies() {
    let z: Matrix<i64> = zeros(2, 3);
    assert_eq!(to_rows(&z), vec![vec![0, 0, 0], vec![0, 0, 0]]);
    let a = pattern(3, 4, 14);
    assert_eq!(to_rows(&copy_of(&a)), to_rows(&a));
}

#[test]
fn dot_of_a_slice_and_a_column() {
    let b = from_rows(&[vec![7, 8], vec![9, 10], vec![11, 12]]);
    let data: [i64; 3] = [1, 0, -1];
    let u: &[i64] = &data;
    let v = col(&b, 1).unwrap();
    assert_eq!(dot(&u, &v), Ok(8 - 12));
}

#[test]
fn the_kernels_are_reachable_under_one_path() {
    let a = from_rows(&[vec![1, 2], vec![2, 5]]);
    let mut f = copy_of(&a);
    assert_eq!(algorithms::cholesky_seq_inplace(&mut f), Ok(()));
    assert_eq!(to_rows(&algorithms::cholesky_blocked(&a).unwrap()), vec![vec![1, 0], vec![2, 1]]);
    assert_eq!(to_rows(&algorithms::inverse(&a).unwrap()), vec![vec![5, -2], vec![-2, 1]]);
    assert_eq!(
        to_rows(&algorithms::mat_mul_blocked(&a, &a).unwrap()),
        vec![vec![5, 12], vec![12, 29]]
    );
    assert_eq!(
        to_rows(&algorithms::par::mat_mul_banded(&a, &a, 2).unwrap()),
        vec![vec![5, 12], vec![12, 29]]
    );
}

#[test]
fn one_tile_product_is_added_to_its_window() {
    let a = pattern(5, 6, 15);
    let b = pattern(6, 4, 16);
    let mut c: Matrix<i64> = Matrix::create(5, 4, |i, j| (i * 4 + j) as i64);
    scirust::matrix::blocked::mul_tile_into(&mut c, &a, &b, 1, 2, 3, 2, 2, 3);
    for i in 0..5 {
        for j in 0..4 {
            let inside = (1..3).contains(&i) && (2..4).contains(&j);
            let grow: i64 = if inside {
                (3..6).map(|k| a.get(i, k).unwrap() * b.get(k, j).unwrap()).sum()
            } else {
                0
            };
            assert_eq!(c.get(i, j), Ok((i * 4 + j) as i64 + grow));
        }
    }
}
