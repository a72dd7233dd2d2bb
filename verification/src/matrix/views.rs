//! Views of a matrix that hold no elements of their own: a rectangular
//! window and the transpose, each over a shared or an exclusive borrow of
//! the base. Reading and writing through a view only remaps the coordinates.
use vstd::prelude::*;
use crate::matrix::{BasicMatrix, BasicMatrixMut, MatrixError};

verus! {

/// A read-only window of `rows` by `cols` elements whose top left corner is
/// the element `(i, j)` of the base.
///
/// The function of the same name makes one and checks that the window lies
/// inside the base; `wf` says so of any value, however it was made.
pub struct SubMatrix<'a, M> {
    pub i: usize,
    pub j: usize,
    pub rows: usize,
    pub cols: usize,
    pub base: &'a M,
}

impl<'a, T: Copy, M: BasicMatrix<T>> BasicMatrix<T> for SubMatrix<'a, M> {
    open spec fn wf(&self) -> bool {
        &&& self.base.wf()
        &&& self.i + self.rows <= self.base.rows()
        &&& self.j + self.cols <= self.base.cols()
        &&& self.i + self.rows <= usize::MAX
        &&& self.j + self.cols <= usize::MAX
    }

    open spec fn rows(&self) -> nat {
        self.rows as nat
    }

    open spec fn cols(&self) -> nat {
        self.cols as nat
    }

    open spec fn at(&self, i: int, j: int) -> T {
        self.base.at(i + self.i, j + self.j)
    }

    fn get(&self, i: usize, j: usize) -> (r: Result<T, MatrixError>) {
        if i < self.rows && j < self.cols {
            self.base.get(i + self.i, j + self.j)
        } else {
            Err(MatrixError::IndexOutOfBounds)
        }
    }

    fn num_rows(&self) -> (n: usize) {
        self.rows
    }

    fn num_cols(&self) -> (n: usize) {
        self.cols
    }
}

/// Whether the window of `rows` by `cols` elements at `(i, j)` lies inside a
/// matrix of `base_rows` by `base_cols` elements.
pub open spec fn window_fits(
    base_rows: nat,
    base_cols: nat,
    i: usize,
    j: usize,
    rows: usize,
    cols: usize,
) -> bool {
    i + rows <= base_rows && j + cols <= base_cols
}

/// The window of `rows` by `cols` elements of `m` whose top left corner is
/// `(i, j)`, or `IndexOutOfBounds` where that window does not lie inside `m`.
#[allow(non_snake_case)]
pub fn SubMatrix<'a, T: Copy, M: BasicMatrix<T>>(
    m: &'a M,
    i: usize,
    j: usize,
    rows: usize,
    cols: usize,
) -> (r: Result<SubMatrix<'a, M>, MatrixError>)
    requires
        m.wf(),
    ensures
        r is Ok <==> window_fits(m.rows(), m.cols(), i, j, rows, cols),
        r is Ok ==> (r->Ok_0).wf() && (r->Ok_0).base == m,
        r is Ok ==> (r->Ok_0).i == i && (r->Ok_0).j == j,
        r is Ok ==> (r->Ok_0).rows == rows && (r->Ok_0).cols == cols,
        r is Err ==> r->Err_0 == MatrixError::IndexOutOfBounds,
{
    let nr = m.num_rows();
    let nc = m.num_cols();
    if i <= nr && rows <= nr - i && j <= nc && cols <= nc - j {
        Ok(SubMatrix { i, j, rows, cols, base: m })
    } else {
        Err(MatrixError::IndexOutOfBounds)
    }
}

/// A window like [`SubMatrix`] over an exclusive borrow: writing through it
/// changes the base in place.
///
/// The function of the same name makes one and checks that the window lies
/// inside the base; `wf` says so of any value, however it was made.
pub struct SubMatrixMut<'a, M> {
    pub i: usize,
    pub j: usize,
    pub rows: usize,
    pub cols: usize,
    pub base: &'a mut M,
}

impl<'a, M> SubMatrixMut<'a, M> {
    /// Whether `self` is the window that `prev` was: the same corner and
    /// the same extent.
    pub open spec fn same_window(&self, prev: &Self) -> bool {
        &&& self.i == prev.i
        &&& self.j == prev.j
        &&& self.rows == prev.rows
        &&& self.cols == prev.cols
    }
}

impl<'a, T: Copy, M: BasicMatrix<T>> BasicMatrix<T> for SubMatrixMut<'a, M> {
    open spec fn wf(&self) -> bool {
        &&& self.base.wf()
        &&& self.i + self.rows <= self.base.rows()
        &&& self.j + self.cols <= self.base.cols()
        &&& self.i + self.rows <= usize::MAX
        &&& self.j + self.cols <= usize::MAX
    }

    open spec fn rows(&self) -> nat {
        self.rows as nat
    }

    open spec fn cols(&self) -> nat {
        self.cols as nat
    }

    open spec fn at(&self, i: int, j: int) -> T {
        self.base.at(i + self.i, j + self.j)
    }

    fn get(&self, i: usize, j: usize) -> (r: Result<T, MatrixError>) {
        if i < self.rows && j < self.cols {
            self.base.get(i + self.i, j + self.j)
        } else {
            Err(MatrixError::IndexOutOfBounds)
        }
    }

    fn num_rows(&self) -> (n: usize) {
        self.rows
    }

    fn num_cols(&self) -> (n: usize) {
        self.cols
    }
}

impl<'a, T: Copy, M: BasicMatrixMut<T>> BasicMatrixMut<T> for SubMatrixMut<'a, M> {
    /// Besides what the capability promises of the window, the base keeps
    /// its shape and every element outside the written cell, and the view
    /// stays the same window onto the same borrow.
    fn set(&mut self, i: usize, j: usize, x: T) -> (r: Result<(), MatrixError>)
        ensures
            final(self).same_window(old(self)),
            *final(final(self).base) == *final(old(self).base),
            final(self).base.rows() == old(self).base.rows(),
            final(self).base.cols() == old(self).base.cols(),
            forall|p: int, q: int|
                0 <= p < old(self).base.rows() && 0 <= q < old(self).base.cols()
                    ==> #[trigger] final(self).base.at(p, q) == (if r is Ok && p == i + old(self).i && q == j + old(self).j {
                    x
                } else {
                    old(self).base.at(p, q)
                }),
    {
        if i < self.rows && j < self.cols {
            self.base.set(i + self.i, j + self.j, x)
        } else {
            Err(MatrixError::IndexOutOfBounds)
        }
    }
}

/// The writable window of `rows` by `cols` elements of `m` whose top left
/// corner is `(i, j)`, or `IndexOutOfBounds` where that window does not lie
/// inside `m`. Either way `m` ends as the view leaves it.
#[allow(non_snake_case)]
pub fn SubMatrixMut<'a, T: Copy, M: BasicMatrixMut<T>>(
    m: &'a mut M,
    i: usize,
    j: usize,
    rows: usize,
    cols: usize,
) -> (r: Result<SubMatrixMut<'a, M>, MatrixError>)
    requires
        old(m).wf(),
    ensures
        r is Ok <==> window_fits(old(m).rows(), old(m).cols(), i, j, rows, cols),
        r is Ok ==> (r->Ok_0).wf() && *(r->Ok_0).base == *old(m),
        r is Ok ==> *final((r->Ok_0).base) == *final(m),
        r is Ok ==> (r->Ok_0).i == i && (r->Ok_0).j == j,
        r is Ok ==> (r->Ok_0).rows == rows && (r->Ok_0).cols == cols,
        r is Err ==> r->Err_0 == MatrixError::IndexOutOfBounds && *final(m) == *old(m),
{
    let nr = m.num_rows();
    let nc = m.num_cols();
    if i <= nr && rows <= nr - i && j <= nc && cols <= nc - j {
        Ok(SubMatrixMut { i, j, rows, cols, base: m })
    } else {
        Err(MatrixError::IndexOutOfBounds)
    }
}

/// The transpose of the base, read in place: element `(i, j)` of the view is
/// element `(j, i)` of the base.
pub struct TransposeMatrix<'a, M>(pub &'a M);

impl<'a, T: Copy, M: BasicMatrix<T>> BasicMatrix<T> for TransposeMatrix<'a, M> {
    open spec fn wf(&self) -> bool {
        self.0.wf()
    }

    open spec fn rows(&self) -> nat {
        self.0.cols()
    }

    open spec fn cols(&self) -> nat {
        self.0.rows()
    }

    open spec fn at(&self, i: int, j: int) -> T {
        self.0.at(j, i)
    }

    fn get(&self, i: usize, j: usize) -> (r: Result<T, MatrixError>) {
        self.0.get(j, i)
    }

    fn num_rows(&self) -> (n: usize) {
        self.0.num_cols()
    }

    fn num_cols(&self) -> (n: usize) {
        self.0.num_rows()
    }
}

/// The transpose of the base over an exclusive borrow: writing element
/// `(i, j)` of the view writes element `(j, i)` of the base.
pub struct TransposeMatrixMut<'a, M>(pub &'a mut M);

impl<'a, T: Copy, M: BasicMatrix<T>> BasicMatrix<T> for TransposeMatrixMut<'a, M> {
    open spec fn wf(&self) -> bool {
        self.0.wf()
    }

    open spec fn rows(&self) -> nat {
        self.0.cols()
    }

    open spec fn cols(&self) -> nat {
        self.0.rows()
    }

    open spec fn at(&self, i: int, j: int) -> T {
        self.0.at(j, i)
    }

    fn get(&self, i: usize, j: usize) -> (r: Result<T, MatrixError>) {
        self.0.get(j, i)
    }

    fn num_rows(&self) -> (n: usize) {
        self.0.num_cols()
    }

    fn num_cols(&self) -> (n: usize) {
        self.0.num_rows()
    }
}

impl<'a, T: Copy, M: BasicMatrixMut<T>> BasicMatrixMut<T> for TransposeMatrixMut<'a, M> {
    /// Besides what the capability promises of the view, it stays a view of
    /// the same borrow.
    fn set(&mut self, i: usize, j: usize, x: T) -> (r: Result<(), MatrixError>)
        ensures
            *final(final(self).0) == *final(old(self).0),
    {
        self.0.set(j, i, x)
    }
}

/// The transpose view of `m` has the dimensions of `m` exchanged, and its
/// element `(i, j)` is the element `(j, i)` of `m`.
pub proof fn lemma_transpose_view<T: Copy, M: BasicMatrix<T>>(m: &M, i: int, j: int)
    ensures
        TransposeMatrix(m).wf() == m.wf(),
        TransposeMatrix(m).rows() == m.cols(),
        TransposeMatrix(m).cols() == m.rows(),
        TransposeMatrix(m).at(i, j) == m.at(j, i),
{
}

/// The window of `r` by `c` elements of `m` at `(i0, j0)` has `r` rows and
/// `c` columns, and its element `(i, j)` is the element `(i + i0, j + j0)`
/// of `m`.
pub proof fn lemma_subblock_view<T: Copy, M: BasicMatrix<T>>(
    m: &M,
    i0: usize,
    j0: usize,
    r: usize,
    c: usize,
    i: int,
    j: int,
)
    ensures
        (SubMatrix { i: i0, j: j0, rows: r, cols: c, base: m }).rows() == r,
        (SubMatrix { i: i0, j: j0, rows: r, cols: c, base: m }).cols() == c,
        (SubMatrix { i: i0, j: j0, rows: r, cols: c, base: m }).at(i, j) == m.at(i + i0, j + j0),
{
}

} // verus!
