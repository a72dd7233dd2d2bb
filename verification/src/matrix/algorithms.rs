//! The sequential kernels: inner product, matrix product and transposition.
use vstd::prelude::*;

pub use crate::matrix::block_cholesky::{cholesky_blocked, cholesky_blocked_by};
pub use crate::matrix::blocked::{mat_mul_blocked, mat_mul_blocked_by};
pub use crate::matrix::cholesky::cholesky_seq_inplace;
pub use crate::matrix::inverse::inverse;
pub use crate::matrix::par;

use crate::matrix::{
    col, row, BasicMatrix, ColumnVector, Create, Matrix, MatrixError, Ring, RowVector, Vector,
};

verus! {

/// The inner product of the first `n` elements of `u` and `v`: the products
/// `u[k] * v[k]` added one after the other, in the order of `k`, to zero.
pub open spec fn dot_prefix<T: Ring, U: Vector<T>, V: Vector<T>>(u: &U, v: &V, n: nat) -> T
    decreases n,
{
    if n == 0 {
        T::zero_spec()
    } else {
        dot_prefix(u, v, (n - 1) as nat).add_spec(u.elem(n - 1).mul_spec(v.elem(n - 1)))
    }
}

/// The inner product of two vectors of one length.
pub open spec fn dot_spec<T: Ring, U: Vector<T>, V: Vector<T>>(u: &U, v: &V) -> T {
    dot_prefix(u, v, u.size())
}

/// The products `a[i, k] * b[k, j]` for `lo <= k < hi`, added one after the
/// other, in the order of `k`, to zero.
pub open spec fn inner<T: Ring, A: BasicMatrix<T>, B: BasicMatrix<T>>(
    a: &A,
    b: &B,
    i: int,
    j: int,
    lo: int,
    hi: int,
) -> T
    decreases hi - lo,
{
    if hi <= lo {
        T::zero_spec()
    } else {
        inner(a, b, i, j, lo, hi - 1).add_spec(a.at(i, hi - 1).mul_spec(b.at(hi - 1, j)))
    }
}

/// The element `(i, j)` of the product of `a` and `b`.
pub open spec fn product_entry<T: Ring, A: BasicMatrix<T>, B: BasicMatrix<T>>(
    a: &A,
    b: &B,
    i: int,
    j: int,
) -> T {
    inner(a, b, i, j, 0, a.cols() as int)
}

/// Whether `c` is the product of `a` and `b`: it has the rows of `a`, the
/// columns of `b`, and each element is the inner product of a row of `a`
/// and a column of `b`.
pub open spec fn is_product<T: Ring, A: BasicMatrix<T>, B: BasicMatrix<T>, C: BasicMatrix<T>>(
    c: &C,
    a: &A,
    b: &B,
) -> bool {
    &&& c.wf()
    &&& c.rows() == a.rows()
    &&& c.cols() == b.cols()
    &&& forall|i: int, j: int|
        0 <= i < c.rows() && 0 <= j < c.cols() ==> #[trigger] c.at(i, j) == product_entry(
            a,
            b,
            i,
            j,
        )
}

/// Whether `t` is the transpose of `a`.
pub open spec fn is_transpose<T: Copy, A: BasicMatrix<T>, C: BasicMatrix<T>>(t: &C, a: &A) -> bool {
    &&& t.wf()
    &&& t.rows() == a.cols()
    &&& t.cols() == a.rows()
    &&& forall|i: int, j: int|
        0 <= i < t.rows() && 0 <= j < t.cols() ==> #[trigger] t.at(i, j) == a.at(j, i)
}

/// The inner product of row `i` of `a` and column `j` of `b` is the sum
/// that defines the element `(i, j)` of their product.
pub proof fn lemma_row_dot_col<T: Ring, A: BasicMatrix<T>, B: BasicMatrix<T>>(
    a: &A,
    b: &B,
    i: usize,
    j: usize,
    n: nat,
)
    ensures
        dot_prefix(&RowVector { i, base: a }, &ColumnVector { j, base: b }, n) == inner(
            a,
            b,
            i as int,
            j as int,
            0,
            n as int,
        ),
    decreases n,
{
    if n > 0 {
        lemma_row_dot_col(a, b, i, j, (n - 1) as nat);
    }
}

/// Two products of the same operands are the same matrix, by whichever
/// kernel each was computed.
pub proof fn lemma_products_agree<
    T: Ring,
    A: BasicMatrix<T>,
    B: BasicMatrix<T>,
    C: BasicMatrix<T>,
    D: BasicMatrix<T>,
>(c: &C, d: &D, a: &A, b: &B)
    requires
        is_product(c, a, b),
        is_product(d, a, b),
    ensures
        c.rows() == d.rows(),
        c.cols() == d.cols(),
        forall|i: int, j: int|
            0 <= i < c.rows() && 0 <= j < c.cols() ==> #[trigger] c.at(i, j) == d.at(i, j),
{
}

/// The value of a result that is known to be `Ok`.
pub(crate) fn known<X>(r: Result<X, MatrixError>) -> (x: X)
    requires
        r is Ok,
    ensures
        r == Ok::<X, MatrixError>(x),
{
    match r {
        Ok(x) => x,
        Err(_) => vstd::pervasive::unreached(),
    }
}

/// The inner product of `u` and `v`, accumulated in the element type, or
/// `DimensionMismatch` where their lengths differ.
pub fn dot<T: Ring, U: Vector<T>, V: Vector<T>>(u: &U, v: &V) -> (r: Result<T, MatrixError>)
    requires
        u.wf(),
        v.wf(),
    ensures
        u.size() == v.size() ==> r == Ok::<T, MatrixError>(dot_spec(u, v)),
        u.size() != v.size() ==> r == Err::<T, MatrixError>(MatrixError::DimensionMismatch),
{
    let n = u.len();
    if n != v.len() {
        return Err(MatrixError::DimensionMismatch);
    }
    let mut acc = T::zero();
    let mut k: usize = 0;
    while k < n
        invariant
            u.wf(),
            v.wf(),
            k <= n,
            n == u.size(),
            n == v.size(),
            acc == dot_prefix(u, v, k as nat),
        decreases n - k,
    {
        let x = known(u.get(k));
        let y = known(v.get(k));
        acc = acc.add(x.mul(y));
        k += 1;
    }
    Ok(acc)
}

/// The `rows` by `cols` matrix of zeros.
pub fn zeros<T: Ring>(rows: usize, cols: usize) -> (m: Matrix<T>)
    requires
        rows * cols <= usize::MAX,
    ensures
        m.wf(),
        m.rows() == rows,
        m.cols() == cols,
        forall|i: int, j: int|
            0 <= i < rows && 0 <= j < cols ==> #[trigger] m.at(i, j) == T::zero_spec(),
{
    let init = |i: usize, j: usize| -> (x: T)
        ensures
            x == T::zero_spec(),
        {
            T::zero()
        };
    let m = Matrix::create(rows, cols, init);
    assert forall|i: int, j: int| 0 <= i < rows && 0 <= j < cols implies #[trigger] m.at(i, j)
        == T::zero_spec() by {
        let iu = i as usize;
        let ju = j as usize;
        assert(m.at(iu as int, ju as int) == T::zero_spec());
    }
    m
}

/// A copy of `a` in storage of its own.
pub fn copy_of<T: Copy, A: BasicMatrix<T>>(a: &A) -> (m: Matrix<T>)
    requires
        a.wf(),
        a.rows() * a.cols() <= usize::MAX,
    ensures
        m.wf(),
        m.rows() == a.rows(),
        m.cols() == a.cols(),
        forall|i: int, j: int|
            0 <= i < a.rows() && 0 <= j < a.cols() ==> #[trigger] m.at(i, j) == a.at(i, j),
{
    let rows = a.num_rows();
    let cols = a.num_cols();
    let init = |i: usize, j: usize| -> (x: T)
        requires
            i < rows && j < cols,
        ensures
            x == a.at(i as int, j as int),
        {
            known(a.get(i, j))
        };
    let m = Matrix::create(rows, cols, init);
    assert forall|i: int, j: int| 0 <= i < a.rows() && 0 <= j < a.cols() implies #[trigger] m.at(
        i,
        j,
    ) == a.at(i, j) by {
        let iu = i as usize;
        let ju = j as usize;
        assert(m.at(iu as int, ju as int) == a.at(iu as int, ju as int));
    }
    m
}

/// A copy of `a` with rows and columns exchanged, in storage of its own.
pub fn transpose<T: Copy, A: BasicMatrix<T>>(a: &A) -> (t: Matrix<T>)
    requires
        a.wf(),
        a.rows() * a.cols() <= usize::MAX,
    ensures
        is_transpose(&t, a),
{
    let rows = a.num_cols();
    let cols = a.num_rows();
    proof {
        assert(rows * cols == cols * rows) by (nonlinear_arith);
    }
    let init = |i: usize, j: usize| -> (x: T)
        requires
            i < rows && j < cols,
        ensures
            x == a.at(j as int, i as int),
        {
            known(a.get(j, i))
        };
    let t = Matrix::create(rows, cols, init);
    assert forall|i: int, j: int| 0 <= i < t.rows() && 0 <= j < t.cols() implies #[trigger] t.at(
        i,
        j,
    ) == a.at(j, i) by {
        let iu = i as usize;
        let ju = j as usize;
        assert(t.at(iu as int, ju as int) == a.at(ju as int, iu as int));
    }
    t
}

/// The product of `a` and `b` in storage of its own, each element the inner
/// product of a row of `a` and a column of `b`; `DimensionMismatch` where
/// `a` has not as many columns as `b` has rows.
pub fn mat_mul<T: Ring, A: BasicMatrix<T>, B: BasicMatrix<T>>(a: &A, b: &B) -> (r: Result<
    Matrix<T>,
    MatrixError,
>)
    requires
        a.wf(),
        b.wf(),
        a.rows() * b.cols() <= usize::MAX,
    ensures
        a.cols() == b.rows() ==> r is Ok && is_product(&r->Ok_0, a, b),
        a.cols() != b.rows() ==> r is Err && r->Err_0 == MatrixError::DimensionMismatch,
{
    if a.num_cols() != b.num_rows() {
        return Err(MatrixError::DimensionMismatch);
    }
    let rows = a.num_rows();
    let cols = b.num_cols();
    let init = |i: usize, j: usize| -> (x: T)
        requires
            i < rows && j < cols,
        ensures
            x == product_entry(a, b, i as int, j as int),
        {
            let u = known(row(a, i));
            let v = known(col(b, j));
            proof {
                lemma_row_dot_col(a, b, i, j, a.cols());
            }
            known(dot(&u, &v))
        };
    let c = Matrix::create(rows, cols, init);
    assert forall|i: int, j: int| 0 <= i < c.rows() && 0 <= j < c.cols() implies #[trigger] c.at(
        i,
        j,
    ) == product_entry(a, b, i, j) by {
        let iu = i as usize;
        let ju = j as usize;
        assert(c.at(iu as int, ju as int) == product_entry(a, b, iu as int, ju as int));
    }
    Ok(c)
}

} // verus!
