use scirust::matrix::algorithms::{copy_of, mat_mul};
use scirust::matrix::block_cholesky::{cholesky_blocked_by, lower_copy, schur_update};
use scirust::matrix::blocked::store_tile;
use scirust::matrix::cholesky::cholesky_seq_inplace;
use scirust::matrix::generate::lower_triangular;
use scirust::matrix::inverse::inverse;
use scirust::matrix::par::{
    band_cuts, cholesky_banded, inverse_banded, inverse_columns, mat_mul_band, mat_mul_banded,
    schur_update_banded, store_columns,
};
use scirust::matrix::{BasicMatrix, Create, Matrix, MatrixError, TransposeMatrix};

fn rows_of<M: BasicMatrix<i64>>(m: &M) -> Vec<Vec<i64>> {
    (0..m.num_rows())
        .map(|i| (0..m.num_cols()).map(|j| m.get(i, j).unwrap()).collect())
        .collect()
}

fn sample(rows: usize, cols: usize, seed: i64) -> Matrix<i64> {
    Matrix::create(rows, cols, |i, j| {
        ((i as i64) * 13 + (j as i64) * 29 + seed) % 19 - 9
    })
}

fn factor(n: usize, unit: bool) -> Matrix<i64> {
    lower_triangular(n, &|i: usize, j: usize| {
        if i == j {
            if unit {
                1
            } else {
                (i % 4) as i64 + 1
            }
        } else {
            ((i * 3 + j * 5) % 7) as i64 - 3
        }
    })
}

fn gram_of(l: &Matrix<i64>) -> Matrix<i64> {
    mat_mul(l, &TransposeMatrix(l)).unwrap()
}

#[test]
fn band_cuts_deal_the_range_evenly() {
    assert_eq!(band_cuts(0, 10, 3), vec![0, 4, 7, 10]);
    assert_eq!(band_cuts(0, 10, 4), vec![0, 3, 6, 8, 10]);
    assert_eq!(band_cuts(5, 11, 2), vec![5, 8, 11]);
    assert_eq!(band_cuts(0, 12, 4), vec![0, 3, 6, 9, 12]);
}

#[test]
fn band_cuts_with_more_parts_than_items() {
    assert_eq!(band_cuts(0, 3, 8), vec![0, 1, 2, 3]);
    assert_eq!(band_cuts(2, 3, 5), vec![2, 3]);
}

#[test]
fn band_cuts_of_an_empty_range() {
    assert_eq!(band_cuts(4, 4, 3), vec![4]);
    assert_eq!(band_cuts(0, 0, 1), vec![0]);
}

#[test]
fn band_cuts_with_one_part() {
    assert_eq!(band_cuts(3, 20, 1), vec![3, 20]);
}

#[test]
fn band_cuts_partition_the_range() {
    for n in 0..40usize {
        for parts in 1..9usize {
            let cuts = band_cuts(2, 2 + n, parts);
            assert_eq!(cuts[0], 2);
            assert_eq!(*cuts.last().unwrap(), 2 + n);
            assert!(cuts.len() <= parts + 1);
            for w in cuts.windows(2) {
                assert!(w[0] < w[1]);
            }
            for x in 2..2 + n {
                let holders = cuts.windows(2).filter(|w| w[0] <= x && x < w[1]).count();
                assert_eq!(holders, 1);
            }
        }
    }
}

#[test]
fn a_band_of_the_product_is_its_rows() {
    let a = sample(9, 6, 1);
    let b = sample(6, 5, 2);
    let whole = rows_of(&mat_mul(&a, &b).unwrap());
    let band = mat_mul_band(&a, &b, 3, 4).unwrap();
    assert_eq!(rows_of(&band), whole[3..7].to_vec());
    let none = mat_mul_band(&a, &b, 9, 0).unwrap();
    assert_eq!(none.num_rows(), 0);
    assert_eq!(none.num_cols(), 5);
}

#[test]
fn a_band_outside_the_product_is_refused() {
    let a = sample(9, 6, 1);
    let b = sample(6, 5, 2);
    assert!(matches!(
        mat_mul_band(&a, &b, 7, 3),
        Err(MatrixError::IndexOutOfBounds)
    ));
    let c = sample(5, 5, 3);
    assert!(matches!(
        mat_mul_band(&a, &c, 0, 1),
        Err(MatrixError::DimensionMismatch)
    ));
}

#[test]
fn banded_product_equals_the_naive_product() {
    let a = sample(11, 7, 4);
    let b = sample(7, 6, 5);
    let naive = rows_of(&mat_mul(&a, &b).unwrap());
    for parts in 1..14 {
        assert_eq!(rows_of(&mat_mul_banded(&a, &b, parts).unwrap()), naive);
    }
    let c = sample(8, 6, 6);
    assert!(matches!(
        mat_mul_banded(&a, &c, 2),
        Err(MatrixError::DimensionMismatch)
    ));
}

#[test]
fn bands_computed_apart_assemble_to_the_product() {
    let a = sample(10, 4, 7);
    let b = sample(4, 3, 8);
    let cuts = band_cuts(0, 10, 3);
    let bands: Vec<Matrix<i64>> = cuts
        .windows(2)
        .rev()
        .map(|w| mat_mul_band(&a, &b, w[0], w[1] - w[0]).unwrap())
        .collect();
    let mut c: Matrix<i64> = Matrix::create(10, 3, |_, _| 0);
    for (w, band) in cuts.windows(2).rev().zip(bands.iter()) {
        assert_eq!(store_tile(&mut c, band, w[0], 0), Ok(()));
    }
    assert_eq!(rows_of(&c), rows_of(&mat_mul(&a, &b).unwrap()));
}

#[test]
fn store_tile_copies_inside_the_window_only() {
    let mut c = sample(4, 4, 9);
    let before = rows_of(&c);
    let p: Matrix<i64> = Matrix::create(2, 3, |i, j| (50 + 10 * i + j) as i64);
    assert_eq!(store_tile(&mut c, &p, 2, 1), Ok(()));
    for i in 0..4 {
        for j in 0..4 {
            let expect = if i >= 2 && j >= 1 {
                (50 + 10 * (i - 2) + (j - 1)) as i64
            } else {
                before[i][j]
            };
            assert_eq!(c.get(i, j), Ok(expect));
        }
    }
    let kept = rows_of(&c);
    assert_eq!(store_tile(&mut c, &p, 3, 1), Err(MatrixError::IndexOutOfBounds));
    assert_eq!(rows_of(&c), kept);
}

#[test]
fn banded_trailing_update_equals_the_tiled_one() {
    let base = gram_of(&factor(9, false));
    for parts in 0..6 {
        let mut tiled = copy_of(&base);
        schur_update(&mut tiled, 1, 3, 2);
        let mut banded = copy_of(&base);
        schur_update_banded(&mut banded, 1, 3, parts);
        assert_eq!(rows_of(&banded), rows_of(&tiled));
    }
}

#[test]
fn banded_cholesky_equals_the_blocked_one() {
    let l = factor(10, false);
    let a = gram_of(&l);
    let blocked = rows_of(&cholesky_blocked_by(&a, 3).unwrap());
    assert_eq!(blocked, rows_of(&l));
    for parts in 1..5 {
        assert_eq!(rows_of(&cholesky_banded(&a, 3, parts).unwrap()), blocked);
    }
    let mut seq = copy_of(&a);
    assert_eq!(cholesky_seq_inplace(&mut seq), Ok(()));
    assert_eq!(rows_of(&lower_copy(&seq)), blocked);
    let bad: Matrix<i64> = Matrix::create(3, 3, |i, j| if i == j { -1 } else { 0 });
    assert!(matches!(
        cholesky_banded(&bad, 2, 2),
        Err(MatrixError::NotPositiveDefinite)
    ));
}

#[test]
fn banded_inverse_equals_the_inverse() {
    let a = gram_of(&factor(7, true));
    let whole = rows_of(&inverse(&a).unwrap());
    for parts in 1..9 {
        assert_eq!(rows_of(&inverse_banded(&a, parts).unwrap()), whole);
    }
    let bad: Matrix<i64> = Matrix::create(2, 2, |_, _| 1);
    assert!(matches!(
        inverse_banded(&bad, 2),
        Err(MatrixError::NotPositiveDefinite)
    ));
}

#[test]
fn columns_solved_apart_assemble_to_the_inverse() {
    let a = gram_of(&factor(6, true));
    let mut l = copy_of(&a);
    assert_eq!(cholesky_seq_inplace(&mut l), Ok(()));
    let right = inverse_columns(&l, 2, 6).unwrap();
    let left = inverse_columns(&l, 0, 2).unwrap();
    assert_eq!(left.len(), 2);
    assert_eq!(right.len(), 4);
    let mut inv: Matrix<i64> = Matrix::create(6, 6, |_, _| 0);
    assert_eq!(store_columns(&mut inv, &right, 2), Ok(()));
    assert_eq!(store_columns(&mut inv, &left, 0), Ok(()));
    assert_eq!(rows_of(&inv), rows_of(&inverse(&a).unwrap()));
}

#[test]
fn columns_of_a_bad_factor_are_refused() {
    let wide = sample(2, 3, 1);
    assert_eq!(
        inverse_columns(&wide, 0, 1),
        Err(MatrixError::DimensionMismatch)
    );
    let singular: Matrix<i64> = Matrix::create(2, 2, |i, j| if i == 0 && j == 0 { 1 } else { 0 });
    assert_eq!(
        inverse_columns(&singular, 0, 2),
        Err(MatrixError::SingularMatrix)
    );
    assert_eq!(inverse_columns(&singular, 1, 1), Ok(vec![]));
}

#[test]
fn columns_that_do_not_fit_are_refused() {
    let mut inv: Matrix<i64> = Matrix::create(3, 3, |i, j| (i * 3 + j) as i64);
    let before = rows_of(&inv);
    let short: Vec<Vec<i64>> = vec![vec![1, 2, 3], vec![4, 5]];
    assert_eq!(
        store_columns(&mut inv, &short, 0),
        Err(MatrixError::DimensionMismatch)
    );
    let two: Vec<Vec<i64>> = vec![vec![1, 2, 3], vec![4, 5, 6]];
    assert_eq!(
        store_columns(&mut inv, &two, 2),
        Err(MatrixError::DimensionMismatch)
    );
    assert_eq!(
        store_columns(&mut inv, &two, 4),
        Err(MatrixError::DimensionMismatch)
    );
    assert_eq!(rows_of(&inv), before);
    assert_eq!(store_columns(&mut inv, &two, 1), Ok(()));
    assert_eq!(
        rows_of(&inv),
        vec![vec![0, 1, 4], vec![3, 2, 5], vec![6, 3, 6]]
    );
}
