//! Matrices made from a rule: the identity, and lower triangular matrices
//! over a generator of their elements.
use vstd::prelude::*;
use crate::matrix::{BasicMatrix, Create, Matrix, Ring};

verus! {

/// The element `(i, j)` of an identity matrix.
pub open spec fn identity_entry<T: Ring>(i: int, j: int) -> T {
    if i == j {
        T::one_spec()
    } else {
        T::zero_spec()
    }
}

/// The `n` by `n` identity matrix: one on the diagonal, zero elsewhere.
pub fn identity<T: Ring>(n: usize) -> (m: Matrix<T>)
    requires
        n * n <= usize::MAX,
    ensures
        m.wf(),
        m.rows() == n,
        m.cols() == n,
        forall|i: int, j: int|
            0 <= i < n && 0 <= j < n ==> #[trigger] m.at(i, j) == identity_entry::<T>(i, j),
{
    let init = |i: usize, j: usize| -> (x: T)
        ensures
            x == identity_entry::<T>(i as int, j as int),
        {
            if i == j {
                T::one()
            } else {
                T::zero()
            }
        };
    let m = Matrix::create(n, n, init);
    assert forall|i: int, j: int| 0 <= i < n && 0 <= j < n implies #[trigger] m.at(i, j)
        == identity_entry::<T>(i, j) by {
        let iu = i as usize;
        let ju = j as usize;
        assert(m.at(iu as int, ju as int) == identity_entry::<T>(iu as int, ju as int));
    }
    m
}

/// The `n` by `n` lower triangular matrix whose elements on and below the
/// diagonal are what `element` returns for their coordinates; `element` is
/// not called for the coordinates above the diagonal, which hold zero.
pub fn lower_triangular<T: Ring, F: Fn(usize, usize) -> T>(n: usize, element: &F) -> (m: Matrix<T>)
    requires
        n * n <= usize::MAX,
        forall|i: usize, j: usize| j <= i < n ==> call_requires(element, (i, j)),
    ensures
        m.wf(),
        m.rows() == n,
        m.cols() == n,
        forall|i: usize, j: usize| j <= i < n ==> call_ensures(element, (i, j), #[trigger] m.at(i as int, j as int)),
        forall|i: int, j: int| 0 <= i < j < n ==> #[trigger] m.at(i, j) == T::zero_spec(),
{
    let init = |i: usize, j: usize| -> (x: T)
        requires
            i < n && j < n,
        ensures
            j <= i ==> call_ensures(element, (i, j), x),
            j > i ==> x == T::zero_spec(),
        {
            if j <= i {
                element(i, j)
            } else {
                T::zero()
            }
        };
    let m = Matrix::create(n, n, init);
    assert forall|i: int, j: int| 0 <= i < j < n implies #[trigger] m.at(i, j)
        == T::zero_spec() by {
        let iu = i as usize;
        let ju = j as usize;
        assert(call_ensures(init, (iu, ju), m.at(iu as int, ju as int)));
    }
    assert forall|i: usize, j: usize| j <= i < n implies call_ensures(
        element,
        (i, j),
        #[trigger] m.at(i as int, j as int),
    ) by {
        assert(call_ensures(init, (i, j), m.at(i as int, j as int)));
    }
    m
}

} // verus!
