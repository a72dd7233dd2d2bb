//! The inverse of a symmetric positive definite matrix from its Cholesky
//! factor: column `c` of the inverse solves `L * Lt * x = e`, with `e` the
//! vector that is one at position `c` and zero elsewhere.
use vstd::prelude::*;
use crate::matrix::par::inverse_banded;
use crate::matrix::cholesky::{chol_entry, chol_residual, pivot_ok, pivots_ok};
use crate::matrix::solve::{
    back_entry, elems_of, entries_of, fwd_entry, has_zero_pivot, lemma_back_agree,
    lemma_fwd_agree, solve_lower, solve_upper_transposed,
};
use crate::matrix::{BasicMatrix, Matrix, MatrixError, Ring, Scalar};

verus! {

/// The vector that is one at position `c` and zero elsewhere.
pub open spec fn unit<T: Ring>(c: int) -> spec_fn(int) -> T {
    |p: int|
        if p == c {
            T::one_spec()
        } else {
            T::zero_spec()
        }
}

/// The solution `y` of `l * y = e`, `e` the unit vector of position `c`.
pub open spec fn half_solved<T: Scalar>(l: spec_fn(int, int) -> T, c: int) -> spec_fn(int) -> T {
    |p: int| fwd_entry(l, unit::<T>(c), p)
}

/// The element `i` of the solution `x` of `l * lt * x = e` in `n`
/// unknowns, `e` the unit vector of position `c`.
pub open spec fn column_entry<T: Scalar>(l: spec_fn(int, int) -> T, n: int, c: int, i: int) -> T {
    back_entry(l, half_solved(l, c), n, i)
}

/// The Cholesky factor of `a` as a function of the coordinates.
pub open spec fn factor_of<T: Scalar, A: BasicMatrix<T>>(a: &A) -> spec_fn(int, int) -> T {
    |i: int, j: int| chol_entry(a, i, j)
}

/// The element `(i, c)` of the inverse of `a`.
pub open spec fn inverse_entry<T: Scalar, A: BasicMatrix<T>>(a: &A, i: int, c: int) -> T {
    column_entry(factor_of(a), a.rows() as int, c, i)
}

/// Whether `inv` is the inverse of the square matrix `a` as the
/// substitutions on its Cholesky factor give it.
pub open spec fn is_inverse_of<T: Scalar, A: BasicMatrix<T>, M: BasicMatrix<T>>(
    inv: &M,
    a: &A,
) -> bool {
    &&& inv.wf()
    &&& inv.rows() == a.rows()
    &&& inv.cols() == a.rows()
    &&& forall|i: int, c: int|
        0 <= i < a.rows() && 0 <= c < a.rows() ==> #[trigger] inv.at(i, c) == inverse_entry(
            a,
            i,
            c,
        )
}

/// A column of the inverse depends only on the lower triangle of the
/// factor.
pub proof fn lemma_column_agree<T: Scalar>(
    l1: spec_fn(int, int) -> T,
    l2: spec_fn(int, int) -> T,
    n: int,
    c: int,
    i: int,
)
    requires
        0 <= i < n,
        forall|x: int, y: int| 0 <= y <= x < n ==> #[trigger] l1(x, y) == l2(x, y),
    ensures
        column_entry(l1, n, c, i) == column_entry(l2, n, c, i),
{
    let y1 = half_solved(l1, c);
    let y2 = half_solved(l2, c);
    assert forall|x: int| 0 <= x < n implies #[trigger] y1(x) == y2(x) by {
        lemma_fwd_agree(l1, unit::<T>(c), l2, unit::<T>(c), x, x);
    }
    lemma_back_agree(l1, y1, l2, y2, n, i, n);
}

/// The vector of `n` elements that is one at position `c` and zero
/// elsewhere.
pub fn unit_vector<T: Ring>(n: usize, c: usize) -> (e: Vec<T>)
    ensures
        e@.len() == n,
        forall|p: int| 0 <= p < n ==> #[trigger] e@[p] == unit::<T>(c as int)(p),
{
    let mut e: Vec<T> = Vec::new();
    let mut p: usize = 0;
    while p < n
        invariant
            p <= n,
            e@.len() == p,
            forall|q: int| 0 <= q < p ==> #[trigger] e@[q] == unit::<T>(c as int)(q),
        decreases n - p,
    {
        if p == c {
            e.push(T::one());
        } else {
            e.push(T::zero());
        }
        p += 1;
    }
    e
}

/// Column `c` of the inverse of `l * lt`, by a forward and a backward
/// substitution on the lower triangle of `l`.
///
/// `DimensionMismatch` where `l` is not square; else `SingularMatrix` where
/// a diagonal element of `l` is zero.
pub fn inverse_column<T: Scalar, L: BasicMatrix<T>>(l: &L, c: usize) -> (r: Result<
    Vec<T>,
    MatrixError,
>)
    requires
        l.wf(),
    ensures
        l.rows() != l.cols() ==> r is Err && r->Err_0 == MatrixError::DimensionMismatch,
        l.rows() == l.cols() && has_zero_pivot(entries_of(l), l.rows() as int) ==> r is Err
            && r->Err_0 == MatrixError::SingularMatrix,
        l.rows() == l.cols() && !has_zero_pivot(entries_of(l), l.rows() as int) ==> r is Ok,
        r is Ok ==> (r->Ok_0)@.len() == l.rows(),
        r is Ok ==> forall|i: int|
            0 <= i < l.rows() ==> #[trigger] (r->Ok_0)@[i] == column_entry(
                entries_of(l),
                l.rows() as int,
                c as int,
                i,
            ),
{
    let n = l.num_rows();
    let e: Vec<T> = unit_vector(n, c);
    let y = match solve_lower(l, &e) {
        Ok(y) => y,
        Err(err) => {
            return Err(err);
        },
    };
    let x = match solve_upper_transposed(l, &y) {
        Ok(x) => x,
        Err(err) => {
            return Err(err);
        },
    };
    proof {
        let lf = entries_of(l);
        let half = half_solved(lf, c as int);
        assert forall|p: int| 0 <= p < n implies #[trigger] elems_of(&y)(p) == half(p) by {
            lemma_fwd_agree(lf, elems_of(&e), lf, unit::<T>(c as int), p, p);
            assert(y@[p] == fwd_entry(lf, elems_of(&e), p));
        }
        assert forall|i: int| 0 <= i < n implies #[trigger] x@[i] == column_entry(
            lf,
            n as int,
            c as int,
            i,
        ) by {
            lemma_back_agree(lf, elems_of(&y), lf, half, n as int, i, n as int);
        }
    }
    Ok(x)
}

/// The pivots of a factorisation that went through are not zero.
pub proof fn lemma_pivots_nonzero<T: Scalar, A: BasicMatrix<T>>(a: &A, n: int)
    requires
        pivots_ok(a, n),
    ensures
        !has_zero_pivot(factor_of(a), n),
{
    if has_zero_pivot(factor_of(a), n) {
        let w = choose|w: int| 0 <= w < n && #[trigger] factor_of(a)(w, w) == T::zero_spec();
        assert(pivot_ok(a, w));
        T::lemma_positive_sqrt(chol_residual(a, w, w, w));
    }
}

/// The inverse of the square matrix `a`, symmetric and positive definite,
/// in storage of its own.
///
/// `a` is factored as `L * Lt`; column `c` of the inverse is the solution
/// of `L * y = e` followed by `Lt * x = y`, `e` the unit vector of position
/// `c`. `NotPositiveDefinite` where the factorisation meets a pivot whose
/// radicand is not positive.
pub fn inverse<T: Scalar, A: BasicMatrix<T>>(a: &A) -> (r: Result<Matrix<T>, MatrixError>)
    requires
        a.wf(),
        a.rows() == a.cols(),
        a.rows() * a.cols() <= usize::MAX,
    ensures
        r is Ok <==> pivots_ok(a, a.rows() as int),
        r is Ok ==> is_inverse_of(&r->Ok_0, a),
        r is Err ==> r->Err_0 == MatrixError::NotPositiveDefinite,
{
    inverse_banded(a, 1)
}

/// Two inverses of the same matrix are the same matrix, whether their
/// columns were solved in one band or in several.
pub proof fn lemma_inverses_agree<
    T: Scalar,
    A: BasicMatrix<T>,
    M: BasicMatrix<T>,
    N: BasicMatrix<T>,
>(first: &M, second: &N, a: &A)
    requires
        is_inverse_of(first, a),
        is_inverse_of(second, a),
    ensures
        first.rows() == second.rows(),
        first.cols() == second.cols(),
        forall|i: int, c: int|
            0 <= i < a.rows() && 0 <= c < a.rows() ==> #[trigger] first.at(i, c) == second.at(
                i,
                c,
            ),
{
}

} // verus!
