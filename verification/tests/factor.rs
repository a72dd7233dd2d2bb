use scirust::matrix::algorithms::{copy_of, mat_mul};
use scirust::matrix::block_cholesky::{
    cholesky_blocked, cholesky_blocked_by, factor_block, schur_cell, schur_tile, schur_update,
    solve_panel, solve_panel_row, store_tile_lower,
};
use scirust::matrix::cholesky::cholesky_seq_inplace;
use scirust::matrix::generate::{identity, lower_triangular};
use scirust::matrix::inverse::{inverse, inverse_column, unit_vector};
use scirust::matrix::solve::{solve_lower, solve_upper_transposed};
use scirust::matrix::{BasicMatrix, Create, Matrix, MatrixError, SubMatrixMut, TransposeMatrix};

fn from_rows(rows: &[Vec<i64>]) -> Matrix<i64> {
    let cols = if rows.is_empty() { 0 } else { rows[0].len() };
    Matrix::create(rows.len(), cols, |i, j| rows[i][j])
}

fn to_rows<M: BasicMatrix<i64>>(m: &M) -> Vec<Vec<i64>> {
    (0..m.num_rows())
        .map(|i| (0..m.num_cols()).map(|j| m.get(i, j).unwrap()).collect())
        .collect()
}

fn known_factor(n: usize) -> Matrix<i64> {
    lower_triangular(n, &|i: usize, j: usize| {
        if i == j {
            (i % 5) as i64 + 1
        } else {
            ((i * 7 + j * 3) % 9) as i64 - 4
        }
    })
}

fn unit_factor(n: usize) -> Matrix<i64> {
    lower_triangular(n, &|i: usize, j: usize| {
        if i == j {
            1
        } else {
            ((i * 5 + j * 11) % 7) as i64 - 3
        }
    })
}

fn gram(l: &Matrix<i64>) -> Matrix<i64> {
    mat_mul(l, &TransposeMatrix(l)).unwrap()
}

fn lower_part(m: &Matrix<i64>) -> Vec<Vec<i64>> {
    let n = m.num_rows();
    (0..n)
        .map(|i| (0..n).map(|j| if j <= i { m.get(i, j).unwrap() } else { 0 }).collect())
        .collect()
}

#[test]
fn cholesky_of_the_textbook_matrix() {
    let mut a = from_rows(&[vec![4, 12, -16], vec![12, 37, -43], vec![-16, -43, 98]]);
    assert_eq!(cholesky_seq_inplace(&mut a), Ok(()));
    assert_eq!(
        lower_part(&a),
        vec![vec![2, 0, 0], vec![6, 1, 0], vec![-8, 5, 3]]
    );
    let l = from_rows(&lower_part(&a));
    assert_eq!(
        to_rows(&gram(&l)),
        vec![vec![4, 12, -16], vec![12, 37, -43], vec![-16, -43, 98]]
    );
}

#[test]
fn cholesky_in_place_leaves_the_upper_triangle() {
    let mut a = from_rows(&[vec![4, 111, 222], vec![12, 37, 333], vec![-16, -43, 98]]);
    assert_eq!(cholesky_seq_inplace(&mut a), Ok(()));
    assert_eq!(
        to_rows(&a),
        vec![vec![2, 111, 222], vec![6, 1, 333], vec![-8, 5, 3]]
    );
}

#[test]
fn cholesky_of_an_empty_matrix() {
    let mut a: Matrix<i64> = from_rows(&[]);
    assert_eq!(cholesky_seq_inplace(&mut a), Ok(()));
    let l = cholesky_blocked(&a).unwrap();
    assert_eq!(l.num_rows(), 0);
}

#[test]
fn cholesky_refuses_a_matrix_that_is_not_positive_definite() {
    let mut a = from_rows(&[vec![4, 2], vec![2, 1]]);
    assert_eq!(cholesky_seq_inplace(&mut a), Err(MatrixError::NotPositiveDefinite));
    assert_eq!(to_rows(&a), vec![vec![2, 2], vec![1, 1]]);
    let mut z = from_rows(&[vec![0, 0], vec![0, 1]]);
    assert_eq!(cholesky_seq_inplace(&mut z), Err(MatrixError::NotPositiveDefinite));
    assert_eq!(to_rows(&z), vec![vec![0, 0], vec![0, 1]]);
    let mut neg = from_rows(&[vec![-9]]);
    assert_eq!(cholesky_seq_inplace(&mut neg), Err(MatrixError::NotPositiveDefinite));
}

#[test]
fn cholesky_recovers_a_known_factor() {
    let l = known_factor(9);
    let mut a = gram(&l);
    assert_eq!(cholesky_seq_inplace(&mut a), Ok(()));
    assert_eq!(lower_part(&a), to_rows(&l));
}

#[test]
fn cholesky_through_a_writable_subblock() {
    let l = known_factor(3);
    let a = gram(&l);
    let mut big: Matrix<i64> =
        Matrix::create(5, 5, |i, j| if (1..4).contains(&i) && (1..4).contains(&j) {
            a.get(i - 1, j - 1).unwrap()
        } else {
            -1
        });
    {
        let mut window = SubMatrixMut(&mut big, 1, 1, 3, 3).unwrap();
        assert_eq!(cholesky_seq_inplace(&mut window), Ok(()));
    }
    for i in 0..5 {
        for j in 0..5 {
            let inside = (1..4).contains(&i) && (1..4).contains(&j);
            let expect = if inside && j <= i {
                l.get(i - 1, j - 1).unwrap()
            } else if inside {
                a.get(i - 1, j - 1).unwrap()
            } else {
                -1
            };
            assert_eq!(big.get(i, j), Ok(expect));
        }
    }
}

#[test]
fn blocked_cholesky_of_the_textbook_matrix() {
    let a = from_rows(&[vec![4, 12, -16], vec![12, 37, -43], vec![-16, -43, 98]]);
    for bs in 1..5 {
        let l = cholesky_blocked_by(&a, bs).unwrap();
        assert_eq!(
            to_rows(&l),
            vec![vec![2, 0, 0], vec![6, 1, 0], vec![-8, 5, 3]]
        );
    }
    assert_eq!(
        to_rows(&a),
        vec![vec![4, 12, -16], vec![12, 37, -43], vec![-16, -43, 98]]
    );
}

#[test]
fn blocked_cholesky_agrees_with_the_sequential_one() {
    let l = known_factor(11);
    let a = gram(&l);
    let mut seq = copy_of(&a);
    assert_eq!(cholesky_seq_inplace(&mut seq), Ok(()));
    for bs in 1..13 {
        let blocked = cholesky_blocked_by(&a, bs).unwrap();
        assert_eq!(to_rows(&blocked), lower_part(&seq));
        assert_eq!(to_rows(&blocked), to_rows(&l));
    }
}

#[test]
fn blocked_cholesky_with_the_default_block_size() {
    let l = known_factor(70);
    let a = gram(&l);
    let blocked = cholesky_blocked(&a).unwrap();
    assert_eq!(to_rows(&blocked), to_rows(&l));
    assert_eq!(to_rows(&gram(&blocked)), to_rows(&a));
}

#[test]
fn blocked_cholesky_refuses_a_matrix_that_is_not_positive_definite() {
    let mut rows = to_rows(&gram(&known_factor(6)));
    rows[4][4] = -3;
    let a = from_rows(&rows);
    for bs in 1..8 {
        assert!(matches!(
            cholesky_blocked_by(&a, bs),
            Err(MatrixError::NotPositiveDefinite)
        ));
    }
    let mut seq = copy_of(&a);
    assert_eq!(cholesky_seq_inplace(&mut seq), Err(MatrixError::NotPositiveDefinite));
}

#[test]
fn the_steps_of_one_block_make_the_first_columns_of_the_factor() {
    let l = known_factor(7);
    let a = gram(&l);
    let mut w = copy_of(&a);
    assert_eq!(factor_block(&mut w, 0, 3), Ok(()));
    assert_eq!(solve_panel(&mut w, 0, 3), Ok(()));
    for i in 0..7 {
        for j in 0..3 {
            if j <= i {
                assert_eq!(w.get(i, j), l.get(i, j));
            }
        }
    }
    let before = copy_of(&w);
    schur_update(&mut w, 0, 3, 2);
    for i in 0..7 {
        for j in 0..7 {
            let expect = if 3 <= j && j <= i {
                schur_cell(&before, i, j, 0, 3)
            } else {
                before.get(i, j).unwrap()
            };
            assert_eq!(w.get(i, j), Ok(expect));
        }
    }
    assert_eq!(
        schur_cell(&before, 5, 4, 0, 3),
        a.get(5, 4).unwrap()
            - (0..3)
                .map(|p| l.get(4, p).unwrap() * l.get(5, p).unwrap())
                .sum::<i64>()
    );
}

#[test]
fn factor_block_leaves_the_matrix_when_it_fails() {
    let mut w = from_rows(&[vec![4, 0, 0], vec![2, 1, 0], vec![0, 0, 5]]);
    let before = to_rows(&w);
    assert_eq!(factor_block(&mut w, 0, 2), Err(MatrixError::NotPositiveDefinite));
    assert_eq!(to_rows(&w), before);
    assert_eq!(factor_block(&mut w, 2, 1), Ok(()));
    assert_eq!(w.get(2, 2), Ok(2));
}

#[test]
fn solve_panel_refuses_a_zero_pivot() {
    let mut w = from_rows(&[vec![0, 0], vec![3, 1]]);
    let before = to_rows(&w);
    assert_eq!(solve_panel(&mut w, 0, 1), Err(MatrixError::SingularMatrix));
    assert_eq!(to_rows(&w), before);
    assert_eq!(solve_panel(&mut w, 0, 2), Ok(()));
    assert_eq!(
        solve_panel_row(&w, 1, 0, 1),
        Err(MatrixError::SingularMatrix)
    );
    let ok = from_rows(&[vec![2, 0], vec![6, 1]]);
    assert_eq!(solve_panel_row(&ok, 1, 0, 1), Ok(vec![3]));
}

#[test]
fn schur_tile_and_store() {
    let w = from_rows(&[
        vec![2, 0, 0, 0],
        vec![1, 10, 0, 0],
        vec![3, 20, 30, 0],
        vec![5, 40, 50, 60],
    ]);
    let t = schur_tile(&w, 0, 1, 2, 1, 2, 2);
    assert_eq!(
        to_rows(&t),
        vec![vec![20 - 1 * 3, 30 - 3 * 3], vec![40 - 1 * 5, 50 - 3 * 5]]
    );
    let mut c = copy_of(&w);
    assert_eq!(store_tile_lower(&mut c, &t, 2, 1), Ok(()));
    assert_eq!(
        to_rows(&c),
        vec![
            vec![2, 0, 0, 0],
            vec![1, 10, 0, 0],
            vec![3, 17, 21, 0],
            vec![5, 35, 35, 60],
        ]
    );
    let mut d = copy_of(&w);
    assert_eq!(store_tile_lower(&mut d, &t, 0, 1), Ok(()));
    assert_eq!(d.get(0, 1), Ok(0));
    assert_eq!(d.get(1, 1), Ok(35));
    assert_eq!(
        store_tile_lower(&mut d, &t, 3, 3),
        Err(MatrixError::IndexOutOfBounds)
    );
}

#[test]
fn forward_and_backward_substitution() {
    let l = from_rows(&[vec![2, 99, 99], vec![6, 1, 99], vec![-8, 5, 3]]);
    let b: Vec<i64> = vec![4, 14, -9];
    let y = solve_lower(&l, &b).unwrap();
    assert_eq!(y, vec![2, 2, -1]);
    let rhs: Vec<i64> = vec![12, 7, 9];
    let x = solve_upper_transposed(&l, &rhs).unwrap();
    assert_eq!(x, vec![42, -8, 3]);
}

#[test]
fn substitution_refuses_bad_shapes_and_zero_pivots() {
    let l = from_rows(&[vec![2, 0], vec![6, 0]]);
    let b: Vec<i64> = vec![4, 14];
    assert_eq!(solve_lower(&l, &b), Err(MatrixError::SingularMatrix));
    assert_eq!(solve_upper_transposed(&l, &b), Err(MatrixError::SingularMatrix));
    let short: Vec<i64> = vec![4];
    assert_eq!(solve_lower(&l, &short), Err(MatrixError::DimensionMismatch));
    assert_eq!(
        solve_upper_transposed(&l, &short),
        Err(MatrixError::DimensionMismatch)
    );
    let wide = from_rows(&[vec![1, 2, 3], vec![4, 5, 6]]);
    assert_eq!(solve_lower(&wide, &b), Err(MatrixError::DimensionMismatch));
    assert_eq!(inverse_column(&wide, 0), Err(MatrixError::DimensionMismatch));
    assert_eq!(inverse_column(&l, 0), Err(MatrixError::SingularMatrix));
}

#[test]
fn unit_vectors() {
    let e: Vec<i64> = unit_vector(4, 2);
    assert_eq!(e, vec![0, 0, 1, 0]);
    let none: Vec<i64> = unit_vector(2, 5);
    assert_eq!(none, vec![0, 0]);
}

#[test]
fn inverse_times_the_matrix_is_the_identity() {
    for n in 1..8 {
        let l = unit_factor(n);
        let a = gram(&l);
        let inv = inverse(&a).unwrap();
        let id: Matrix<i64> = identity(n);
        assert_eq!(to_rows(&mat_mul(&inv, &a).unwrap()), to_rows(&id));
        assert_eq!(to_rows(&mat_mul(&a, &inv).unwrap()), to_rows(&id));
    }
}

#[test]
fn inverse_of_a_small_matrix() {
    let a = from_rows(&[vec![1, 2], vec![2, 5]]);
    let inv = inverse(&a).unwrap();
    assert_eq!(to_rows(&inv), vec![vec![5, -2], vec![-2, 1]]);
    assert_eq!(to_rows(&a), vec![vec![1, 2], vec![2, 5]]);
}

#[test]
fn inverse_column_by_column() {
    let l = unit_factor(5);
    let a = gram(&l);
    let inv = inverse(&a).unwrap();
    let mut f = copy_of(&a);
    assert_eq!(cholesky_seq_inplace(&mut f), Ok(()));
    for c in 0..5 {
        let x = inverse_column(&f, c).unwrap();
        for i in 0..5 {
            assert_eq!(inv.get(i, c), Ok(x[i]));
        }
    }
}

#[test]
fn inverse_refuses_a_matrix_that_is_not_positive_definite() {
    let a = from_rows(&[vec![1, 2], vec![2, 4]]);
    assert!(matches!(inverse(&a), Err(MatrixError::NotPositiveDefinite)));
}

#[test]
fn identity_is_one_on_the_diagonal_only() {
    let id: Matrix<i64> = identity(5);
    assert_eq!(id.num_rows(), 5);
    assert_eq!(id.num_cols(), 5);
    for i in 0..5 {
        for j in 0..5 {
            assert_eq!(id.get(i, j), Ok(if i == j { 1 } else { 0 }));
        }
    }
    let none: Matrix<i64> = identity(0);
    assert_eq!(none.num_rows(), 0);
}

#[test]
fn lower_triangular_is_zero_above_the_diagonal() {
    let l = known_factor(4);
    for i in 0..4 {
        for j in 0..4 {
            let x = l.get(i, j).unwrap();
            if j > i {
                assert_eq!(x, 0);
            } else if i == j {
                assert!(x > 0);
            }
        }
    }
    assert_eq!(l.get(3, 1), Ok(((3 * 7 + 3) % 9) as i64 - 4));
}
