//! One-dimensional sequences of elements: owned vectors, and the rows and
//! columns of a matrix read or written in place.
use vstd::prelude::*;
use crate::matrix::{BasicMatrix, BasicMatrixMut, MatrixError};

verus! {

/// The read capability of anything shaped like a vector. Its model is the
/// length `size()` and the function `elem` on the positions below it.
pub trait Vector<T: Copy> {
    /// The validity of the value; every constructor establishes it.
    spec fn wf(&self) -> bool;

    /// The number of elements.
    spec fn size(&self) -> nat;

    /// The element at position `i`.
    spec fn elem(&self, i: int) -> T;

    fn len(&self) -> (n: usize)
        requires
            self.wf(),
        ensures
            n == self.size(),
    ;

    fn get(&self, i: usize) -> (r: Result<T, MatrixError>)
        requires
            self.wf(),
        ensures
            i < self.size() ==> r == Ok::<T, MatrixError>(self.elem(i as int)),
            !(i < self.size()) ==> r == Err::<T, MatrixError>(MatrixError::IndexOutOfBounds),
    ;
}

/// The write capability of a vector: replacing one element in place.
pub trait VectorMut<T: Copy>: Vector<T> {
    fn set(&mut self, i: usize, x: T) -> (r: Result<(), MatrixError>)
        requires
            old(self).wf(),
        ensures
            final(self).wf(),
            final(self).size() == old(self).size(),
            i < old(self).size() ==> r == Ok::<(), MatrixError>(()),
            !(i < old(self).size()) ==> r == Err::<(), MatrixError>(MatrixError::IndexOutOfBounds),
            forall|k: int|
                0 <= k < old(self).size() ==> #[trigger] final(self).elem(k) == (if k == i {
                    x
                } else {
                    old(self).elem(k)
                }),
    ;
}

impl<T: Copy> Vector<T> for Vec<T> {
    open spec fn wf(&self) -> bool {
        true
    }

    open spec fn size(&self) -> nat {
        self@.len()
    }

    open spec fn elem(&self, i: int) -> T {
        self@[i]
    }

    fn len(&self) -> (n: usize) {
        Vec::len(self)
    }

    fn get(&self, i: usize) -> (r: Result<T, MatrixError>) {
        if i < Vec::len(self) {
            Ok(self[i])
        } else {
            Err(MatrixError::IndexOutOfBounds)
        }
    }
}

impl<T: Copy> VectorMut<T> for Vec<T> {
    fn set(&mut self, i: usize, x: T) -> (r: Result<(), MatrixError>) {
        if i < Vec::len(self) {
            vstd::pervasive::VecAdditionalExecFns::set(self, i, x);
            Ok(())
        } else {
            Err(MatrixError::IndexOutOfBounds)
        }
    }
}

impl<'a, T: Copy> Vector<T> for &'a [T] {
    open spec fn wf(&self) -> bool {
        true
    }

    open spec fn size(&self) -> nat {
        (**self)@.len()
    }

    open spec fn elem(&self, i: int) -> T {
        (**self)@[i]
    }

    fn len(&self) -> (n: usize) {
        (**self).len()
    }

    fn get(&self, i: usize) -> (r: Result<T, MatrixError>) {
        if i < (**self).len() {
            Ok((**self)[i])
        } else {
            Err(MatrixError::IndexOutOfBounds)
        }
    }
}

impl<'a, T: Copy> Vector<T> for &'a mut [T] {
    open spec fn wf(&self) -> bool {
        true
    }

    open spec fn size(&self) -> nat {
        (**self)@.len()
    }

    open spec fn elem(&self, i: int) -> T {
        (**self)@[i]
    }

    fn len(&self) -> (n: usize) {
        (**self).len()
    }

    fn get(&self, i: usize) -> (r: Result<T, MatrixError>) {
        if i < (**self).len() {
            Ok((**self)[i])
        } else {
            Err(MatrixError::IndexOutOfBounds)
        }
    }
}

impl<'a, T: Copy> VectorMut<T> for &'a mut [T] {
    /// Besides what the capability promises of the vector, it stays a
    /// borrow of the same slice.
    fn set(&mut self, i: usize, x: T) -> (r: Result<(), MatrixError>)
        ensures
            (*final(*final(self)))@ == (*final(*old(self)))@,
    {
        if i < (**self).len() {
            (**self)[i] = x;
            Ok(())
        } else {
            Err(MatrixError::IndexOutOfBounds)
        }
    }
}

/// Row `i` of the base, read in place.
pub struct RowVector<'a, M> {
    pub i: usize,
    pub base: &'a M,
}

impl<'a, T: Copy, M: BasicMatrix<T>> Vector<T> for RowVector<'a, M> {
    open spec fn wf(&self) -> bool {
        self.base.wf() && self.i < self.base.rows()
    }

    open spec fn size(&self) -> nat {
        self.base.cols()
    }

    open spec fn elem(&self, j: int) -> T {
        self.base.at(self.i as int, j)
    }

    fn len(&self) -> (n: usize) {
        self.base.num_cols()
    }

    fn get(&self, j: usize) -> (r: Result<T, MatrixError>) {
        self.base.get(self.i, j)
    }
}

/// Column `j` of the base, read in place.
pub struct ColumnVector<'a, M> {
    pub j: usize,
    pub base: &'a M,
}

impl<'a, T: Copy, M: BasicMatrix<T>> Vector<T> for ColumnVector<'a, M> {
    open spec fn wf(&self) -> bool {
        self.base.wf() && self.j < self.base.cols()
    }

    open spec fn size(&self) -> nat {
        self.base.rows()
    }

    open spec fn elem(&self, i: int) -> T {
        self.base.at(i, self.j as int)
    }

    fn len(&self) -> (n: usize) {
        self.base.num_rows()
    }

    fn get(&self, i: usize) -> (r: Result<T, MatrixError>) {
        self.base.get(i, self.j)
    }
}

/// Row `i` of `m` as a vector, or `IndexOutOfBounds` where `m` has no such
/// row.
pub fn row<'a, T: Copy, M: BasicMatrix<T>>(m: &'a M, i: usize) -> (r: Result<
    RowVector<'a, M>,
    MatrixError,
>)
    requires
        m.wf(),
    ensures
        i < m.rows() ==> r == Ok::<RowVector<'a, M>, MatrixError>(RowVector { i, base: m }),
        !(i < m.rows()) ==> r == Err::<RowVector<'a, M>, MatrixError>(
            MatrixError::IndexOutOfBounds,
        ),
{
    if i < m.num_rows() {
        Ok(RowVector { i, base: m })
    } else {
        Err(MatrixError::IndexOutOfBounds)
    }
}

/// Column `j` of `m` as a vector, or `IndexOutOfBounds` where `m` has no
/// such column.
pub fn col<'a, T: Copy, M: BasicMatrix<T>>(m: &'a M, j: usize) -> (r: Result<
    ColumnVector<'a, M>,
    MatrixError,
>)
    requires
        m.wf(),
    ensures
        j < m.cols() ==> r == Ok::<ColumnVector<'a, M>, MatrixError>(ColumnVector { j, base: m }),
        !(j < m.cols()) ==> r == Err::<ColumnVector<'a, M>, MatrixError>(
            MatrixError::IndexOutOfBounds,
        ),
{
    if j < m.num_cols() {
        Ok(ColumnVector { j, base: m })
    } else {
        Err(MatrixError::IndexOutOfBounds)
    }
}

/// Row `i` of the base over an exclusive borrow: writing an element of the
/// vector writes the base.
pub struct RowVectorMut<'a, M> {
    pub i: usize,
    pub base: &'a mut M,
}

impl<'a, T: Copy, M: BasicMatrix<T>> Vector<T> for RowVectorMut<'a, M> {
    open spec fn wf(&self) -> bool {
        self.base.wf() && self.i < self.base.rows()
    }

    open spec fn size(&self) -> nat {
        self.base.cols()
    }

    open spec fn elem(&self, j: int) -> T {
        self.base.at(self.i as int, j)
    }

    fn len(&self) -> (n: usize) {
        self.base.num_cols()
    }

    fn get(&self, j: usize) -> (r: Result<T, MatrixError>) {
        self.base.get(self.i, j)
    }
}

impl<'a, T: Copy, M: BasicMatrixMut<T>> VectorMut<T> for RowVectorMut<'a, M> {
    /// Besides what the capability promises of the row, the base keeps its
    /// shape and every other row, and the vector stays the same row of the
    /// same borrow.
    fn set(&mut self, j: usize, x: T) -> (r: Result<(), MatrixError>)
        ensures
            final(self).i == old(self).i,
            *final(final(self).base) == *final(old(self).base),
            final(self).base.rows() == old(self).base.rows(),
            forall|p: int, q: int|
                0 <= p < old(self).base.rows() && 0 <= q < old(self).base.cols() && p != old(
                    self,
                ).i ==> #[trigger] final(self).base.at(p, q) == old(self).base.at(p, q),
    {
        self.base.set(self.i, j, x)
    }
}

/// Column `j` of the base over an exclusive borrow: writing an element of
/// the vector writes the base.
pub struct ColumnVectorMut<'a, M> {
    pub j: usize,
    pub base: &'a mut M,
}

impl<'a, T: Copy, M: BasicMatrix<T>> Vector<T> for ColumnVectorMut<'a, M> {
    open spec fn wf(&self) -> bool {
        self.base.wf() && self.j < self.base.cols()
    }

    open spec fn size(&self) -> nat {
        self.base.rows()
    }

    open spec fn elem(&self, i: int) -> T {
        self.base.at(i, self.j as int)
    }

    fn len(&self) -> (n: usize) {
        self.base.num_rows()
    }

    fn get(&self, i: usize) -> (r: Result<T, MatrixError>) {
        self.base.get(i, self.j)
    }
}

impl<'a, T: Copy, M: BasicMatrixMut<T>> VectorMut<T> for ColumnVectorMut<'a, M> {
    /// Besides what the capability promises of the column, the base keeps
    /// its shape and every other column, and the vector stays the same
    /// column of the same borrow.
    fn set(&mut self, i: usize, x: T) -> (r: Result<(), MatrixError>)
        ensures
            final(self).j == old(self).j,
            *final(final(self).base) == *final(old(self).base),
            final(self).base.cols() == old(self).base.cols(),
            forall|p: int, q: int|
                0 <= p < old(self).base.rows() && 0 <= q < old(self).base.cols() && q != old(
                    self,
                ).j ==> #[trigger] final(self).base.at(p, q) == old(self).base.at(p, q),
    {
        self.base.set(i, self.j, x)
    }
}

/// Row `i` of `m` as a writable vector, or `IndexOutOfBounds` where `m` has
/// no such row. Either way `m` ends as the vector leaves it.
pub fn row_mut<'a, T: Copy, M: BasicMatrixMut<T>>(m: &'a mut M, i: usize) -> (r: Result<
    RowVectorMut<'a, M>,
    MatrixError,
>)
    requires
        old(m).wf(),
    ensures
        r is Ok <==> i < old(m).rows(),
        r is Ok ==> (r->Ok_0).i == i && *(r->Ok_0).base == *old(m),
        r is Ok ==> *final((r->Ok_0).base) == *final(m),
        r is Err ==> r->Err_0 == MatrixError::IndexOutOfBounds && *final(m) == *old(m),
{
    if i < m.num_rows() {
        Ok(RowVectorMut { i, base: m })
    } else {
        Err(MatrixError::IndexOutOfBounds)
    }
}

/// Column `j` of `m` as a writable vector, or `IndexOutOfBounds` where `m`
/// has no such column. Either way `m` ends as the vector leaves it.
pub fn col_mut<'a, T: Copy, M: BasicMatrixMut<T>>(m: &'a mut M, j: usize) -> (r: Result<
    ColumnVectorMut<'a, M>,
    MatrixError,
>)
    requires
        old(m).wf(),
    ensures
        r is Ok <==> j < old(m).cols(),
        r is Ok ==> (r->Ok_0).j == j && *(r->Ok_0).base == *old(m),
        r is Ok ==> *final((r->Ok_0).base) == *final(m),
        r is Err ==> r->Err_0 == MatrixError::IndexOutOfBounds && *final(m) == *old(m),
{
    if j < m.num_cols() {
        Ok(ColumnVectorMut { j, base: m })
    } else {
        Err(MatrixError::IndexOutOfBounds)
    }
}

} // verus!
