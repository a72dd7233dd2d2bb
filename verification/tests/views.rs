use scirust::matrix::{
    col, col_mut, row, row_mut, BasicMatrix, BasicMatrixMut, Create, Matrix, MatrixError,
    SubMatrix, SubMatrixMut, TransposeMatrix, TransposeMatrixMut, Vector, VectorMut,
};

fn grid(rows: usize, cols: usize) -> Matrix<i64> {
    Matrix::create(rows, cols, |i, j| (100 * i + j) as i64)
}

#[test]
fn transpose_view_swaps_coordinates_and_dimensions() {
    let m = grid(3, 5);
    let t = TransposeMatrix(&m);
    assert_eq!(t.num_rows(), 5);
    assert_eq!(t.num_cols(), 3);
    for i in 0..5 {
        for j in 0..3 {
            assert_eq!(t.get(i, j), m.get(j, i));
        }
    }
    assert_eq!(t.get(4, 2), Ok(204));
    assert_eq!(t.get(2, 4), Err(MatrixError::IndexOutOfBounds));
}

#[test]
fn transpose_of_transpose_reads_the_base() {
    let m = grid(2, 4);
    let t = TransposeMatrix(&m);
    let tt = TransposeMatrix(&t);
    for i in 0..2 {
        for j in 0..4 {
            assert_eq!(tt.get(i, j), m.get(i, j));
        }
    }
}

#[test]
fn subblock_view_shifts_coordinates() {
    let m = grid(6, 7);
    let s = SubMatrix(&m, 2, 3, 3, 4).unwrap();
    assert_eq!(s.num_rows(), 3);
    assert_eq!(s.num_cols(), 4);
    for i in 0..3 {
        for j in 0..4 {
            assert_eq!(s.get(i, j), m.get(i + 2, j + 3));
        }
    }
    assert_eq!(s.get(0, 0), Ok(203));
    assert_eq!(s.get(2, 3), Ok(406));
}

#[test]
fn subblock_view_checks_its_own_extent_on_access() {
    let m = grid(6, 7);
    let s = SubMatrix(&m, 1, 1, 2, 2).unwrap();
    assert_eq!(s.get(2, 0), Err(MatrixError::IndexOutOfBounds));
    assert_eq!(s.get(0, 2), Err(MatrixError::IndexOutOfBounds));
}

#[test]
fn subblock_view_is_refused_outside_the_base() {
    let m = grid(4, 4);
    assert!(matches!(SubMatrix(&m, 2, 0, 3, 1), Err(MatrixError::IndexOutOfBounds)));
    assert!(matches!(SubMatrix(&m, 0, 2, 1, 3), Err(MatrixError::IndexOutOfBounds)));
    assert!(matches!(SubMatrix(&m, 5, 0, 0, 0), Err(MatrixError::IndexOutOfBounds)));
    assert!(matches!(
        SubMatrix(&m, usize::MAX, 0, 2, 1),
        Err(MatrixError::IndexOutOfBounds)
    ));
    assert!(SubMatrix(&m, 0, 0, 4, 4).is_ok());
    assert!(SubMatrix(&m, 4, 4, 0, 0).is_ok());
}

#[test]
fn subblock_of_a_transpose_view() {
    let m = grid(3, 5);
    let t = TransposeMatrix(&m);
    let s = SubMatrix(&t, 1, 0, 2, 2).unwrap();
    assert_eq!(s.get(0, 0), Ok(1));
    assert_eq!(s.get(1, 1), Ok(102));
}

#[test]
fn writing_through_a_subblock_changes_the_base() {
    let mut m = grid(4, 4);
    {
        let mut s = SubMatrixMut(&mut m, 1, 2, 2, 2).unwrap();
        assert_eq!(s.get(1, 1), Ok(203));
        assert_eq!(s.set(1, 1, -5), Ok(()));
        assert_eq!(s.get(1, 1), Ok(-5));
        assert_eq!(s.set(2, 0, 9), Err(MatrixError::IndexOutOfBounds));
    }
    assert_eq!(m.get(2, 3), Ok(-5));
    assert_eq!(m.get(3, 2), Ok(302));
    assert_eq!(m.get(1, 2), Ok(102));
}

#[test]
fn writable_subblock_is_refused_outside_the_base() {
    let mut m = grid(4, 4);
    assert!(matches!(
        SubMatrixMut(&mut m, 3, 3, 2, 1),
        Err(MatrixError::IndexOutOfBounds)
    ));
    assert_eq!(m.get(3, 3), Ok(303));
}

#[test]
fn writing_through_a_transpose_changes_the_base() {
    let mut m = grid(2, 3);
    {
        let mut t = TransposeMatrixMut(&mut m);
        assert_eq!(t.num_rows(), 3);
        assert_eq!(t.set(2, 1, 77), Ok(()));
        assert_eq!(t.get(2, 1), Ok(77));
        assert_eq!(t.set(1, 2, 0), Err(MatrixError::IndexOutOfBounds));
    }
    assert_eq!(m.get(1, 2), Ok(77));
    assert_eq!(m.get(0, 2), Ok(2));
}

#[test]
fn row_and_column_vectors_read_the_base() {
    let m = grid(3, 4);
    let r = row(&m, 2).unwrap();
    assert_eq!(r.len(), 4);
    assert_eq!(r.get(3), Ok(203));
    assert_eq!(r.get(4), Err(MatrixError::IndexOutOfBounds));
    let c = col(&m, 1).unwrap();
    assert_eq!(c.len(), 3);
    assert_eq!(c.get(2), Ok(201));
    assert_eq!(c.get(3), Err(MatrixError::IndexOutOfBounds));
}

#[test]
fn row_and_column_outside_the_base_are_refused() {
    let m = grid(3, 4);
    assert!(matches!(row(&m, 3), Err(MatrixError::IndexOutOfBounds)));
    assert!(matches!(col(&m, 4), Err(MatrixError::IndexOutOfBounds)));
}

#[test]
fn writing_through_row_and_column_vectors_changes_the_base() {
    let mut m = grid(3, 3);
    {
        let mut r = row_mut(&mut m, 1).unwrap();
        assert_eq!(r.set(2, -1), Ok(()));
        assert_eq!(r.get(2), Ok(-1));
        assert_eq!(r.set(3, 0), Err(MatrixError::IndexOutOfBounds));
    }
    {
        let mut c = col_mut(&mut m, 0).unwrap();
        assert_eq!(c.set(2, -2), Ok(()));
        assert_eq!(c.len(), 3);
    }
    assert_eq!(m.get(1, 2), Ok(-1));
    assert_eq!(m.get(2, 0), Ok(-2));
    assert_eq!(m.get(1, 1), Ok(101));
    assert!(matches!(row_mut(&mut m, 3), Err(MatrixError::IndexOutOfBounds)));
    assert!(matches!(col_mut(&mut m, 3), Err(MatrixError::IndexOutOfBounds)));
}

#[test]
fn owned_vectors_are_vectors() {
    let mut v: Vec<i64> = vec![5, 6, 7];
    assert_eq!(Vector::len(&v), 3);
    assert_eq!(Vector::get(&v, 1), Ok(6));
    assert_eq!(Vector::get(&v, 3), Err(MatrixError::IndexOutOfBounds));
    assert_eq!(VectorMut::set(&mut v, 0, 9), Ok(()));
    assert_eq!(VectorMut::set(&mut v, 3, 9), Err(MatrixError::IndexOutOfBounds));
    assert_eq!(v, vec![9, 6, 7]);
}

#[test]
fn slices_are_vectors() {
    let data: [i64; 3] = [5, 6, 7];
    let shared: &[i64] = &data;
    assert_eq!(Vector::len(&shared), 3);
    assert_eq!(Vector::get(&shared, 2), Ok(7));
    assert_eq!(Vector::get(&shared, 3), Err(MatrixError::IndexOutOfBounds));
    let mut owned: [i64; 3] = [1, 2, 3];
    {
        let mut writable: &mut [i64] = &mut owned[1..];
        assert_eq!(Vector::len(&writable), 2);
        assert_eq!(VectorMut::set(&mut writable, 1, -3), Ok(()));
        assert_eq!(Vector::get(&writable, 1), Ok(-3));
        assert_eq!(
            VectorMut::set(&mut writable, 2, 0),
            Err(MatrixError::IndexOutOfBounds)
        );
    }
    assert_eq!(owned, [1, 2, -3]);
}
