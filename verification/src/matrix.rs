//! The element-type capabilities, the matrix capability and the owned
//! row-major storage.
use vstd::prelude::*;

pub mod algorithms;
pub mod block_cholesky;
pub mod blocked;
pub mod cholesky;
pub mod generate;
pub mod integer;
pub mod inverse;
pub mod par;
pub mod reconstruct;
pub mod solve;
pub mod vector;
pub mod views;

pub use vector::{
    col, col_mut, row, row_mut, ColumnVector, ColumnVectorMut, RowVector, RowVectorMut, Vector,
    VectorMut,
};
pub use views::{SubMatrix, SubMatrixMut, TransposeMatrix, TransposeMatrixMut};

verus! {

/// The additive and multiplicative structure of an element type.
///
/// Each operation has a spec function that names its result; the executable
/// operation returns exactly that value. The proof obligations are the
/// ring laws that the kernels and their theorems rely on when they regroup
/// a sum or exchange the factors of a product.
pub trait Ring: Copy {
    /// The additive identity.
    spec fn zero_spec() -> Self;

    /// The multiplicative identity.
    spec fn one_spec() -> Self;

    /// The sum of two elements.
    spec fn add_spec(self, rhs: Self) -> Self;

    /// The difference of two elements.
    spec fn sub_spec(self, rhs: Self) -> Self;

    /// The product of two elements.
    spec fn mul_spec(self, rhs: Self) -> Self;

    fn one() -> (r: Self)
        ensures
            r == Self::one_spec(),
    ;

    fn zero() -> (r: Self)
        ensures
            r == Self::zero_spec(),
    ;

    fn add(self, rhs: Self) -> (r: Self)
        ensures
            r == self.add_spec(rhs),
    ;

    fn sub(self, rhs: Self) -> (r: Self)
        ensures
            r == self.sub_spec(rhs),
    ;

    fn mul(self, rhs: Self) -> (r: Self)
        ensures
            r == self.mul_spec(rhs),
    ;

    /// Addition is associative.
    proof fn lemma_add_assoc(a: Self, b: Self, c: Self)
        ensures
            a.add_spec(b).add_spec(c) == a.add_spec(b.add_spec(c)),
    ;

    /// Zero is neutral for addition on both sides.
    proof fn lemma_add_zero(a: Self)
        ensures
            a.add_spec(Self::zero_spec()) == a,
            Self::zero_spec().add_spec(a) == a,
    ;

    /// Addition is commutative.
    proof fn lemma_add_comm(a: Self, b: Self)
        ensures
            a.add_spec(b) == b.add_spec(a),
    ;

    /// Subtraction undoes addition: what was taken away can be put back.
    proof fn lemma_sub_add(a: Self, b: Self)
        ensures
            a.sub_spec(b).add_spec(b) == a,
    ;

    /// Multiplication is commutative.
    proof fn lemma_mul_comm(a: Self, b: Self)
        ensures
            a.mul_spec(b) == b.mul_spec(a),
    ;

    /// A product with zero is zero.
    proof fn lemma_zero_mul(a: Self)
        ensures
            Self::zero_spec().mul_spec(a) == Self::zero_spec(),
    ;
}

/// Square roots of the elements that have one.
pub trait Sqrt: Sized {
    /// Whether the square root of `self` is defined.
    spec fn has_sqrt(self) -> bool;

    /// The square root of `self`, meaningful where `has_sqrt` holds.
    spec fn sqrt_spec(self) -> Self;

    fn sqrt(self) -> (r: Self)
        requires
            self.has_sqrt(),
        ensures
            r == self.sqrt_spec(),
    ;
}

/// What factorisation and triangular solves need beyond a ring: a sign test,
/// a zero test and division by a non-zero element.
pub trait Scalar: Ring + Sqrt {
    /// Whether `self` is strictly greater than zero.
    spec fn positive_spec(self) -> bool;

    /// The quotient of `self` by `rhs`, meaningful where `rhs` is not zero.
    spec fn div_spec(self, rhs: Self) -> Self;

    fn is_positive(self) -> (b: bool)
        ensures
            b == self.positive_spec(),
    ;

    fn is_zero(self) -> (b: bool)
        ensures
            b == (self == Self::zero_spec()),
    ;

    fn div(self, rhs: Self) -> (r: Self)
        requires
            rhs != Self::zero_spec(),
        ensures
            r == self.div_spec(rhs),
    ;

    /// A positive element has a square root, and that root is not zero.
    proof fn lemma_positive_sqrt(x: Self)
        requires
            x.positive_spec(),
        ensures
            x.has_sqrt(),
            x.sqrt_spec() != Self::zero_spec(),
    ;
}

/// Why an operation stopped without a result.
#[derive(Clone, Copy, Debug, PartialEq, Eq, Structural)]
pub enum MatrixError {
    /// A coordinate, or the window of a view, lies outside the matrix.
    IndexOutOfBounds,
    /// The shapes of the operands do not fit the operation.
    DimensionMismatch,
    /// A factorisation met a pivot whose radicand is not positive.
    NotPositiveDefinite,
    /// A triangular solve met a zero pivot.
    SingularMatrix,
}

/// The read capability of anything shaped like a matrix: its dimensions and
/// its elements by coordinate.
///
/// The model of a matrix is `rows()`, `cols()` and the function `at` on the
/// coordinates below them.
pub trait BasicMatrix<T: Copy> {
    /// The validity of the value; every constructor establishes it.
    spec fn wf(&self) -> bool;

    /// The number of rows.
    spec fn rows(&self) -> nat;

    /// The number of columns.
    spec fn cols(&self) -> nat;

    /// The element in row `i`, column `j`.
    spec fn at(&self, i: int, j: int) -> T;

    fn get(&self, i: usize, j: usize) -> (r: Result<T, MatrixError>)
        requires
            self.wf(),
        ensures
            i < self.rows() && j < self.cols() ==> r == Ok::<T, MatrixError>(
                self.at(i as int, j as int),
            ),
            !(i < self.rows() && j < self.cols()) ==> r == Err::<T, MatrixError>(
                MatrixError::IndexOutOfBounds,
            ),
    ;

    fn num_rows(&self) -> (n: usize)
        requires
            self.wf(),
        ensures
            n == self.rows(),
    ;

    fn num_cols(&self) -> (n: usize)
        requires
            self.wf(),
        ensures
            n == self.cols(),
    ;
}

/// The write capability: replacing one element in place.
pub trait BasicMatrixMut<T: Copy>: BasicMatrix<T> {
    fn set(&mut self, i: usize, j: usize, x: T) -> (r: Result<(), MatrixError>)
        requires
            old(self).wf(),
        ensures
            final(self).wf(),
            final(self).rows() == old(self).rows(),
            final(self).cols() == old(self).cols(),
            i < old(self).rows() && j < old(self).cols() ==> r == Ok::<(), MatrixError>(()),
            !(i < old(self).rows() && j < old(self).cols()) ==> r == Err::<(), MatrixError>(
                MatrixError::IndexOutOfBounds,
            ),
            forall|a: int, b: int|
                0 <= a < old(self).rows() && 0 <= b < old(self).cols()
                    ==> #[trigger] final(self).at(a, b) == (if a == i && b == j {
                    x
                } else {
                    old(self).at(a, b)
                }),
    ;
}

/// A matrix that owns its elements, stored row by row.
pub struct Matrix<T: Copy> {
    rows: usize,
    cols: usize,
    data: Vec<T>,
}

impl<T: Copy> BasicMatrix<T> for Matrix<T> {
    closed spec fn wf(&self) -> bool {
        self.data@.len() == self.rows * self.cols <= usize::MAX
    }

    closed spec fn rows(&self) -> nat {
        self.rows as nat
    }

    closed spec fn cols(&self) -> nat {
        self.cols as nat
    }

    closed spec fn at(&self, i: int, j: int) -> T {
        cell(self.data@, self.cols as int, i, j)
    }

    fn get(&self, i: usize, j: usize) -> (r: Result<T, MatrixError>) {
        if i < self.rows && j < self.cols {
            proof {
                lemma_cell_index(self.rows as int, self.cols as int, i as int, j as int);
            }
            Ok(self.data[i * self.cols + j])
        } else {
            Err(MatrixError::IndexOutOfBounds)
        }
    }

    fn num_rows(&self) -> (n: usize) {
        self.rows
    }

    fn num_cols(&self) -> (n: usize) {
        self.cols
    }
}

impl<T: Copy> BasicMatrixMut<T> for Matrix<T> {
    fn set(&mut self, i: usize, j: usize, x: T) -> (r: Result<(), MatrixError>) {
        if i < self.rows && j < self.cols {
            proof {
                lemma_cell_index(self.rows as int, self.cols as int, i as int, j as int);
            }
            let ghost before = *self;
            let k = i * self.cols + j;
            vstd::pervasive::VecAdditionalExecFns::set(&mut self.data, k, x);
            proof {
                assert forall|a: int, b: int|
                    0 <= a < before.rows() && 0 <= b < before.cols() implies #[trigger] self.at(
                    a,
                    b,
                ) == (if a == i && b == j {
                    x
                } else {
                    before.at(a, b)
                }) by {
                    lemma_cell_index(self.rows as int, self.cols as int, a, b);
                    if a * self.cols + b == i * self.cols + j {
                        lemma_cell_distinct(self.cols as int, a, b, i as int, j as int);
                    }
                }
            }
            Ok(())
        } else {
            Err(MatrixError::IndexOutOfBounds)
        }
    }
}

impl<T: Copy> Matrix<T> {
    /// The elements of a matrix in storage can be counted in a `usize`.
    pub proof fn lemma_fits(&self)
        requires
            self.wf(),
        ensures
            self.rows() * self.cols() <= usize::MAX,
    {
    }
}

/// Building a matrix cell by cell.
pub trait Create<T: Copy, M: BasicMatrix<T>> {
    /// The `rows` by `cols` matrix whose element at `(i, j)` is what
    /// `init(i, j)` returns. `init` is called once for each cell.
    fn create<F: Fn(usize, usize) -> T>(rows: usize, cols: usize, init: F) -> (m: M)
        requires
            rows * cols <= usize::MAX,
            forall|i: usize, j: usize| i < rows && j < cols ==> call_requires(init, (i, j)),
        ensures
            m.wf(),
            m.rows() == rows,
            m.cols() == cols,
            forall|i: usize, j: usize|
                i < rows && j < cols ==> call_ensures(
                    init,
                    (i, j),
                    #[trigger] m.at(i as int, j as int),
                ),
    ;
}

/// The element of a row-major buffer that stands for the coordinate `(i, j)`.
spec fn cell<T>(data: Seq<T>, cols: int, i: int, j: int) -> T {
    data[i * cols + j]
}

impl<T: Copy> Create<T, Matrix<T>> for Matrix<T> {
    fn create<F: Fn(usize, usize) -> T>(rows: usize, cols: usize, init: F) -> (m: Matrix<T>) {
        let mut data: Vec<T> = Vec::new();
        let mut i: usize = 0;
        while i < rows
            invariant
                i <= rows,
                rows * cols <= usize::MAX,
                data@.len() == i * cols,
                forall|a: usize, b: usize| a < rows && b < cols ==> call_requires(init, (a, b)),
                forall|a: usize, b: usize|
                    a < i && b < cols ==> call_ensures(
                        init,
                        (a, b),
                        #[trigger] cell(data@, cols as int, a as int, b as int),
                    ),
            decreases rows - i,
        {
            let mut j: usize = 0;
            while j < cols
                invariant
                    i < rows,
                    j <= cols,
                    rows * cols <= usize::MAX,
                    data@.len() == i * cols + j,
                    forall|a: usize, b: usize| a < rows && b < cols ==> call_requires(init, (a, b)),
                    forall|a: usize, b: usize|
                        (a < i && b < cols) || (a == i && b < j) ==> call_ensures(
                            init,
                            (a, b),
                            #[trigger] cell(data@, cols as int, a as int, b as int),
                        ),
                decreases cols - j,
            {
                let x = init(i, j);
                let ghost before = data@;
                data.push(x);
                proof {
                    assert forall|a: usize, b: usize|
                        (a < i && b < cols) || (a == i && b < j + 1) implies call_ensures(
                        init,
                        (a, b),
                        #[trigger] cell(data@, cols as int, a as int, b as int),
                    ) by {
                        lemma_cell_index(rows as int, cols as int, a as int, b as int);
                        if a == i && b == j {
                        } else {
                            lemma_cell_before(cols as int, a as int, b as int, i as int, j as int);
                            assert(cell(data@, cols as int, a as int, b as int) == cell(
                                before,
                                cols as int,
                                a as int,
                                b as int,
                            ));
                        }
                    }
                }
                j += 1;
            }
            proof {
                assert((i + 1) * cols == i * cols + cols) by (nonlinear_arith);
            }
            i += 1;
        }
        Matrix { rows, cols, data }
    }
}

/// A coordinate that comes earlier in row-major order has a smaller position.
proof fn lemma_cell_before(cols: int, a: int, b: int, i: int, j: int)
    requires
        0 <= a,
        0 <= b < cols,
        0 <= j <= cols,
        a < i || (a == i && b < j),
    ensures
        0 <= a * cols + b < i * cols + j,
{
    if a < i {
        assert((a + 1) * cols <= i * cols && (a + 1) * cols == a * cols + cols && 0 <= a * cols)
            by (nonlinear_arith)
            requires
                0 <= a,
                a + 1 <= i,
                0 < cols,
        ;
    } else {
        assert(0 <= a * cols) by (nonlinear_arith)
            requires
                0 <= a,
                0 < cols,
        ;
    }
}

/// The row-major position of an in-range coordinate lies inside the buffer.
proof fn lemma_cell_index(rows: int, cols: int, i: int, j: int)
    requires
        0 <= i < rows,
        0 <= j < cols,
    ensures
        0 <= i * cols + j < rows * cols,
        i * cols + j == j + cols * i,
{
    assert(0 <= i * cols && (i + 1) * cols <= rows * cols && (i + 1) * cols == i * cols + cols
        && i * cols == cols * i) by (nonlinear_arith)
        requires
            0 <= i < rows,
            0 < cols,
    ;
}

/// Two in-range coordinates share a row-major position only if they are equal.
proof fn lemma_cell_distinct(cols: int, a: int, b: int, i: int, j: int)
    requires
        0 <= a,
        0 <= i,
        0 <= b < cols,
        0 <= j < cols,
        a * cols + b == i * cols + j,
    ensures
        a == i && b == j,
{
    if a < i {
        assert((a + 1) * cols <= i * cols && (a + 1) * cols == a * cols + cols)
            by (nonlinear_arith)
            requires
                a + 1 <= i,
                0 < cols,
        ;
    } else if i < a {
        assert((i + 1) * cols <= a * cols && (i + 1) * cols == i * cols + cols)
            by (nonlinear_arith)
            requires
                i + 1 <= a,
                0 < cols,
        ;
    }
}

} // verus!
