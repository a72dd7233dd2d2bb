//! The factor multiplied by its transpose gives the matrix back, where the
//! square roots and the quotients of the factorisation come out even.
//!
//! In the integers and in floating-point numbers they rarely do, so the
//! theorem says in which sense a computed factor is the factor: each
//! rounding of a root or a quotient is the only source of a difference
//! between `L * Lt` and `A`.
use vstd::prelude::*;
use crate::matrix::algorithms::{inner, is_product, product_entry};
use crate::matrix::block_cholesky::is_factor_of;
use crate::matrix::cholesky::{chol_entry, chol_residual};
use crate::matrix::{BasicMatrix, Scalar, TransposeMatrix};

verus! {

/// The product of the elements of the rows `k` and `i` of the factor in
/// column `p`.
pub open spec fn factor_term<T: Scalar, A: BasicMatrix<T>>(a: &A, i: int, k: int, p: int) -> T {
    chol_entry(a, k, p).mul_spec(chol_entry(a, i, p))
}

/// Whether the element `(i, k)` of the factor came out even: multiplied by
/// the pivot of its column it gives the residual it was made from. On the
/// diagonal this says that the square of the root is the radicand.
pub open spec fn exact_at<T: Scalar, A: BasicMatrix<T>>(a: &A, i: int, k: int) -> bool {
    factor_term(a, i, k, k) == chol_residual(a, i, k, k)
}

/// Whether every element of the first `n` rows of the factor came out even.
pub open spec fn exact_factor<T: Scalar, A: BasicMatrix<T>>(a: &A, n: int) -> bool {
    forall|i: int, k: int| 0 <= k <= i < n ==> #[trigger] exact_at(a, i, k)
}

/// Whether the first `n` rows and columns of `a` are symmetric.
pub open spec fn symmetric<T: Copy, A: BasicMatrix<T>>(a: &A, n: int) -> bool {
    forall|i: int, j: int| 0 <= i < n && 0 <= j < n ==> #[trigger] a.at(i, j) == a.at(j, i)
}

/// The terms of the columns `m <= p <= k`, added one after the other from
/// column `k` down to column `m`.
pub open spec fn falling_sum<T: Scalar, A: BasicMatrix<T>>(a: &A, i: int, k: int, m: int) -> T
    decreases k - m,
{
    if m >= k {
        factor_term(a, i, k, k)
    } else {
        falling_sum(a, i, k, m + 1).add_spec(factor_term(a, i, k, m))
    }
}

/// Where the element `(i, k)` came out even, the residual after `m`
/// columns is the sum of the terms that are still to be taken from it.
pub proof fn lemma_residual_is_sum<T: Scalar, A: BasicMatrix<T>>(a: &A, i: int, k: int, m: int)
    requires
        0 <= m <= k <= i,
        exact_at(a, i, k),
    ensures
        chol_residual(a, i, k, m) == falling_sum(a, i, k, m),
    decreases k - m,
{
    if m < k {
        lemma_residual_is_sum(a, i, k, m + 1);
        T::lemma_sub_add(chol_residual(a, i, k, m), factor_term(a, i, k, m));
        assert(chol_residual(a, i, k, m + 1) == chol_residual(a, i, k, m).sub_spec(
            factor_term(a, i, k, m),
        ));
    }
}

/// The terms from column `k` down to column `m`, added to the terms of the
/// columns before `m`, are all the terms up to column `k`.
pub proof fn lemma_falling_meets_rising<T: Scalar, A: BasicMatrix<T>, L: BasicMatrix<T>>(
    a: &A,
    l: &L,
    i: int,
    k: int,
    m: int,
)
    requires
        0 <= m <= k <= i,
        forall|x: int, y: int| 0 <= y <= x <= i ==> #[trigger] l.at(x, y) == chol_entry(a, x, y),
    ensures
        falling_sum(a, i, k, m).add_spec(inner(l, &TransposeMatrix(l), k, i, 0, m)) == inner(
            l,
            &TransposeMatrix(l),
            k,
            i,
            0,
            k + 1,
        ),
    decreases k - m,
{
    let lt = TransposeMatrix(l);
    let below = inner(l, &lt, k, i, 0, m);
    let term = factor_term(a, i, k, m);
    assert(l.at(k, m) == chol_entry(a, k, m));
    assert(l.at(i, m) == chol_entry(a, i, m));
    assert(inner(l, &lt, k, i, 0, m + 1) == below.add_spec(term));
    T::lemma_add_comm(term, below);
    if m < k {
        lemma_falling_meets_rising(a, l, i, k, m + 1);
        T::lemma_add_assoc(falling_sum(a, i, k, m + 1), term, below);
    }
}

/// The terms of a row of the factor beyond its diagonal are zero and add
/// nothing.
pub proof fn lemma_terms_above_vanish<T: Scalar, L: BasicMatrix<T>>(
    l: &L,
    i: int,
    k: int,
    hi: int,
)
    requires
        0 <= k,
        k + 1 <= hi,
        forall|y: int| k < y < hi ==> #[trigger] l.at(k, y) == T::zero_spec(),
    ensures
        inner(l, &TransposeMatrix(l), k, i, 0, hi) == inner(l, &TransposeMatrix(l), k, i, 0, k + 1),
    decreases hi - k,
{
    if hi > k + 1 {
        lemma_terms_above_vanish(l, i, k, hi - 1);
        assert(l.at(k, hi - 1) == T::zero_spec());
        T::lemma_zero_mul(l.at(i, hi - 1));
        T::lemma_add_zero(inner(l, &TransposeMatrix(l), k, i, 0, hi - 1));
    }
}

/// The product of a matrix and its transpose is symmetric.
pub proof fn lemma_gram_symmetric<T: Scalar, L: BasicMatrix<T>>(l: &L, i: int, k: int, hi: int)
    ensures
        inner(l, &TransposeMatrix(l), k, i, 0, hi) == inner(l, &TransposeMatrix(l), i, k, 0, hi),
    decreases hi,
{
    if hi > 0 {
        lemma_gram_symmetric(l, i, k, hi - 1);
        T::lemma_mul_comm(l.at(k, hi - 1), l.at(i, hi - 1));
    }
}

/// Where every element of the factor of the symmetric matrix `a` came out
/// even, the factor multiplied by its transpose is `a`.
pub proof fn lemma_factor_reconstructs<
    T: Scalar,
    A: BasicMatrix<T>,
    L: BasicMatrix<T>,
    P: BasicMatrix<T>,
>(a: &A, l: &L, p: &P)
    requires
        a.rows() == a.cols(),
        symmetric(a, a.rows() as int),
        exact_factor(a, a.rows() as int),
        is_factor_of(l, a),
        is_product(p, l, &TransposeMatrix(l)),
    ensures
        p.rows() == a.rows(),
        p.cols() == a.cols(),
        forall|i: int, j: int|
            0 <= i < a.rows() && 0 <= j < a.rows() ==> #[trigger] p.at(i, j) == a.at(i, j),
{
    let n = a.rows() as int;
    let lt = TransposeMatrix(l);
    assert forall|i: int, j: int| 0 <= i < n && 0 <= j < n implies #[trigger] p.at(i, j) == a.at(
        i,
        j,
    ) by {
        assert(p.at(i, j) == product_entry(l, &lt, i, j));
        let k = if i <= j {
            i
        } else {
            j
        };
        let r = if i <= j {
            j
        } else {
            i
        };
        if j < i {
            lemma_gram_symmetric(l, i, j, n);
        }
        assert(product_entry(l, &lt, i, j) == inner(l, &lt, k, r, 0, n));
        assert forall|y: int| k < y < n implies #[trigger] l.at(k, y) == T::zero_spec() by {}
        lemma_terms_above_vanish(l, r, k, n);
        assert forall|x: int, y: int| 0 <= y <= x <= r implies #[trigger] l.at(x, y) == chol_entry(
            a,
            x,
            y,
        ) by {}
        lemma_falling_meets_rising(a, l, r, k, 0);
        T::lemma_add_zero(falling_sum(a, r, k, 0));
        assert(exact_at(a, r, k));
        lemma_residual_is_sum(a, r, k, 0);
        assert(chol_residual(a, r, k, 0) == a.at(r, k));
        assert(a.at(r, k) == a.at(k, r));
    }
}

} // verus!
