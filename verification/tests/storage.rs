use scirust::matrix::{BasicMatrix, BasicMatrixMut, Create, Matrix, MatrixError};

fn sample() -> Matrix<i64> {
    Matrix::create(2, 3, |i, j| (10 * i + j) as i64)
}

#[test]
fn create_calls_the_generator_for_each_cell() {
    let m = sample();
    assert_eq!(m.num_rows(), 2);
    assert_eq!(m.num_cols(), 3);
    for i in 0..2 {
        for j in 0..3 {
            assert_eq!(m.get(i, j), Ok((10 * i + j) as i64));
        }
    }
}

#[test]
fn get_outside_the_matrix_is_an_error() {
    let m = sample();
    assert_eq!(m.get(2, 0), Err(MatrixError::IndexOutOfBounds));
    assert_eq!(m.get(0, 3), Err(MatrixError::IndexOutOfBounds));
    assert_eq!(m.get(usize::MAX, usize::MAX), Err(MatrixError::IndexOutOfBounds));
}

#[test]
fn set_then_get_returns_the_value() {
    let mut m = sample();
    assert_eq!(m.set(1, 2, -7), Ok(()));
    assert_eq!(m.get(1, 2), Ok(-7));
    assert_eq!(m.get(1, 1), Ok(11));
    assert_eq!(m.get(0, 2), Ok(2));
}

#[test]
fn set_outside_the_matrix_changes_nothing() {
    let mut m = sample();
    assert_eq!(m.set(2, 0, 5), Err(MatrixError::IndexOutOfBounds));
    assert_eq!(m.set(0, 3, 5), Err(MatrixError::IndexOutOfBounds));
    for i in 0..2 {
        for j in 0..3 {
            assert_eq!(m.get(i, j), Ok((10 * i + j) as i64));
        }
    }
}

#[test]
fn empty_matrix_has_no_cells() {
    let m: Matrix<i64> = Matrix::create(0, 5, |_, _| 1);
    assert_eq!(m.num_rows(), 0);
    assert_eq!(m.num_cols(), 5);
    assert_eq!(m.get(0, 0), Err(MatrixError::IndexOutOfBounds));
}
