//! Cholesky factorisation in place, one column after the other.
//!
//! The factor `L` of `A = L * Lt` is lower triangular. Its column `k` needs
//! the columns before it and the column `k` of `A`, so `A` can be
//! overwritten column by column; the part of `A` above the diagonal is never
//! read and never written.
use vstd::prelude::*;
use crate::matrix::algorithms::known;
use crate::matrix::{BasicMatrix, BasicMatrixMut, MatrixError, Scalar};

verus! {

/// What is left of `a[i, k]` after the products `L[k, p] * L[i, p]` of the
/// first `n` columns of the factor have been taken from it, one after the
/// other in the order of `p`.
pub open spec fn chol_residual<T: Scalar, A: BasicMatrix<T>>(a: &A, i: int, k: int, n: int) -> T
    decreases n, 0int,
{
    if n <= 0 {
        a.at(i, k)
    } else {
        chol_residual(a, i, k, n - 1).sub_spec(
            chol_entry(a, k, n - 1).mul_spec(chol_entry(a, i, n - 1)),
        )
    }
}

/// The element `(i, k)` of the factor of `a`, for `k <= i`: on the diagonal
/// the square root of the residual, below it the residual divided by the
/// diagonal element of its column.
pub open spec fn chol_entry<T: Scalar, A: BasicMatrix<T>>(a: &A, i: int, k: int) -> T
    decreases k, (if i == k { 1int } else { 2int }),
{
    if k < 0 {
        a.at(i, k)
    } else if i == k {
        chol_residual(a, k, k, k).sqrt_spec()
    } else {
        chol_residual(a, i, k, k).div_spec(chol_entry(a, k, k))
    }
}

/// Whether the pivot of column `k` can be formed: the residual on the
/// diagonal is positive.
pub open spec fn pivot_ok<T: Scalar, A: BasicMatrix<T>>(a: &A, k: int) -> bool {
    chol_residual(a, k, k, k).positive_spec()
}

/// Whether the first `n` pivots can be formed.
pub open spec fn pivots_ok<T: Scalar, A: BasicMatrix<T>>(a: &A, n: int) -> bool {
    forall|k: int| 0 <= k < n ==> pivot_ok(a, k)
}

/// What the element `(x, y)` holds once the columns before `k` are done and
/// column `k` is done above row `i`: the factor where it has been written,
/// the element of `a` elsewhere.
pub open spec fn chol_state<T: Scalar, A: BasicMatrix<T>>(
    a: &A,
    x: int,
    y: int,
    k: int,
    i: int,
) -> T {
    if y <= x && (y < k || (y == k && x < i)) {
        chol_entry(a, x, y)
    } else {
        a.at(x, y)
    }
}

/// Whether `now` is `a` with the first `k` columns of its lower triangle
/// replaced by the factor.
pub open spec fn factored_upto<T: Scalar, A: BasicMatrix<T>, M: BasicMatrix<T>>(
    now: &M,
    a: &A,
    k: int,
) -> bool {
    &&& now.wf()
    &&& now.rows() == a.rows()
    &&& now.cols() == a.cols()
    &&& forall|x: int, y: int|
        0 <= x < a.rows() && 0 <= y < a.cols() ==> #[trigger] now.at(x, y) == chol_state(
            a,
            x,
            y,
            k,
            0,
        )
}

/// Replaces the lower triangle of the square matrix `a` by its Cholesky
/// factor and leaves the part above the diagonal as it is.
///
/// It stops with `NotPositiveDefinite` at the first column whose pivot has
/// no positive radicand; the columns before it are then already replaced.
pub fn cholesky_seq_inplace<T: Scalar, M: BasicMatrixMut<T>>(a: &mut M) -> (r: Result<
    (),
    MatrixError,
>)
    requires
        old(a).wf(),
        old(a).rows() == old(a).cols(),
    ensures
        r is Ok <==> pivots_ok(old(a), old(a).rows() as int),
        r is Ok ==> factored_upto(final(a), old(a), old(a).rows() as int),
        r is Err ==> r->Err_0 == MatrixError::NotPositiveDefinite,
        r is Err ==> exists|k: int|
            0 <= k < old(a).rows() && pivots_ok(old(a), k) && !pivot_ok(old(a), k)
                && #[trigger] factored_upto(final(a), old(a), k),
{
    let ghost a0 = *a;
    let n = a.num_rows();
    let mut k: usize = 0;
    while k < n
        invariant
            a0 == *old(a),
            a0.wf(),
            n == a0.rows(),
            n == a0.cols(),
            k <= n,
            pivots_ok(&a0, k as int),
            factored_upto(a, &a0, k as int),
        decreases n - k,
    {
        let mut d = known(a.get(k, k));
        let mut p: usize = 0;
        while p < k
            invariant
                a0 == *old(a),
                a0.wf(),
                n == a0.rows(),
                n == a0.cols(),
                k < n,
                p <= k,
                pivots_ok(&a0, k as int),
                factored_upto(a, &a0, k as int),
                d == chol_residual(&a0, k as int, k as int, p as int),
            decreases k - p,
        {
            let l = known(a.get(k, p));
            assert(l == chol_state(&a0, k as int, p as int, k as int, 0));
            d = d.sub(l.mul(l));
            p += 1;
        }
        if !d.is_positive() {
            assert(!pivot_ok(&a0, k as int));
            return Err(MatrixError::NotPositiveDefinite);
        }
        proof {
            T::lemma_positive_sqrt(d);
        }
        let piv = d.sqrt();
        let done = a.set(k, k, piv);
        assert(done is Ok);
        assert(piv == chol_entry(&a0, k as int, k as int));
        let mut i: usize = k + 1;
        while i < n
            invariant
                a0.wf(),
                n == a0.rows(),
                n == a0.cols(),
                k < n,
                k < i <= n,
                a.wf(),
                a.rows() == n,
                a.cols() == n,
                piv == chol_entry(&a0, k as int, k as int),
                piv != T::zero_spec(),
                forall|x: int, y: int|
                    0 <= x < n && 0 <= y < n ==> #[trigger] a.at(x, y) == chol_state(
                        &a0,
                        x,
                        y,
                        k as int,
                        i as int,
                    ),
            decreases n - i,
        {
            let mut s = known(a.get(i, k));
            assert(s == chol_state(&a0, i as int, k as int, k as int, i as int));
            let mut p: usize = 0;
            while p < k
                invariant
                    a0.wf(),
                    n == a0.rows(),
                    n == a0.cols(),
                    k < i < n,
                    p <= k,
                    a.wf(),
                    a.rows() == n,
                    a.cols() == n,
                    forall|x: int, y: int|
                        0 <= x < n && 0 <= y < n ==> #[trigger] a.at(x, y) == chol_state(
                            &a0,
                            x,
                            y,
                            k as int,
                            i as int,
                        ),
                    s == chol_residual(&a0, i as int, k as int, p as int),
                decreases k - p,
            {
                let lip = known(a.get(i, p));
                let lkp = known(a.get(k, p));
                assert(lip == chol_state(&a0, i as int, p as int, k as int, i as int));
                assert(lkp == chol_state(&a0, k as int, p as int, k as int, i as int));
                s = s.sub(lkp.mul(lip));
                p += 1;
            }
            let done = a.set(i, k, s.div(piv));
            assert(done is Ok);
            i += 1;
        }
        proof {
            assert forall|x: int, y: int| 0 <= x < n && 0 <= y < n implies #[trigger] a.at(x, y)
                == chol_state(&a0, x, y, k + 1, 0) by {
                assert(a.at(x, y) == chol_state(&a0, x, y, k as int, n as int));
            }
        }
        k += 1;
    }
    Ok(())
}

/// The factor and its pivots depend only on the elements of the matrix: two
/// matrices with the same elements have the same factor.
pub proof fn lemma_same_factor<T: Scalar, A: BasicMatrix<T>, B: BasicMatrix<T>>(
    a: &A,
    b: &B,
    n: int,
)
    requires
        forall|x: int, y: int| 0 <= x < n && 0 <= y < n ==> #[trigger] a.at(x, y) == b.at(x, y),
    ensures
        forall|i: int, k: int, m: int|
            0 <= k <= i < n && 0 <= m <= k ==> #[trigger] chol_residual(a, i, k, m)
                == chol_residual(b, i, k, m),
        forall|i: int, k: int| 0 <= k <= i < n ==> #[trigger] chol_entry(a, i, k) == chol_entry(b, i, k),
        pivots_ok(a, n) <==> pivots_ok(b, n),
{
    assert forall|i: int, k: int, m: int| 0 <= k <= i < n && 0 <= m <= k implies #[trigger] chol_residual(
        a,
        i,
        k,
        m,
    ) == chol_residual(b, i, k, m) by {
        lemma_same_residual(a, b, n, i, k, m);
    }
    assert forall|i: int, k: int| 0 <= k <= i < n implies #[trigger] chol_entry(a, i, k)
        == chol_entry(b, i, k) by {
        lemma_same_residual(a, b, n, i, k, k);
    }
    assert(pivots_ok(a, n) <==> pivots_ok(b, n)) by {
        assert forall|k: int| 0 <= k < n implies pivot_ok(a, k) == pivot_ok(b, k) by {
            lemma_same_residual(a, b, n, k, k, k);
        }
    }
}

/// One residual, and with it one element of the factor, of two matrices
/// with the same elements.
pub proof fn lemma_same_residual<T: Scalar, A: BasicMatrix<T>, B: BasicMatrix<T>>(
    a: &A,
    b: &B,
    n: int,
    i: int,
    k: int,
    m: int,
)
    requires
        forall|x: int, y: int| 0 <= x < n && 0 <= y < n ==> #[trigger] a.at(x, y) == b.at(x, y),
        0 <= k <= i < n,
        0 <= m <= k,
    ensures
        chol_residual(a, i, k, m) == chol_residual(b, i, k, m),
        m == k ==> chol_entry(a, i, k) == chol_entry(b, i, k),
    decreases k, m, i - k,
{
    if m > 0 {
        lemma_same_residual(a, b, n, i, k, m - 1);
        lemma_same_residual(a, b, n, i, m - 1, m - 1);
        lemma_same_residual(a, b, n, k, m - 1, m - 1);
    }
    if m == k {
        if i != k {
            lemma_same_residual(a, b, n, k, k, k);
            assert(chol_entry(a, i, k) == chol_residual(a, i, k, k).div_spec(chol_entry(a, k, k)));
            assert(chol_entry(b, i, k) == chol_residual(b, i, k, k).div_spec(chol_entry(b, k, k)));
        } else {
            assert(chol_entry(a, k, k) == chol_residual(a, k, k, k).sqrt_spec());
            assert(chol_entry(b, k, k) == chol_residual(b, k, k, k).sqrt_spec());
        }
    }
}

} // verus!
