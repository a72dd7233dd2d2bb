//! Solving triangular systems by substitution.
//!
//! Both solvers read only the lower triangle of their matrix `l`: the first
//! solves `l * y = b` from the top down, the second solves `lt * x = y`,
//! with `lt` the transpose of `l`, from the bottom up. A matrix that holds a
//! Cholesky factor in its lower triangle can be handed to them as it is.
use vstd::prelude::*;
use crate::matrix::algorithms::known;
use crate::matrix::{BasicMatrix, MatrixError, Scalar, Vector};

verus! {

/// The elements of a matrix as a function of the coordinates.
pub open spec fn entries_of<T: Copy, M: BasicMatrix<T>>(m: &M) -> spec_fn(int, int) -> T {
    |i: int, j: int| m.at(i, j)
}

/// The elements of a vector as a function of the position.
pub open spec fn elems_of<T: Copy, V: Vector<T>>(v: &V) -> spec_fn(int) -> T {
    |i: int| v.elem(i)
}

/// What is left of `b[i]` after the products `l[i, p] * y[p]` for `p < n`
/// have been taken from it, one after the other in the order of `p`, where
/// `y` solves `l * y = b`.
pub open spec fn fwd_residual<T: Scalar>(
    l: spec_fn(int, int) -> T,
    b: spec_fn(int) -> T,
    i: int,
    n: int,
) -> T
    decreases n, 0int,
{
    if n <= 0 {
        b(i)
    } else {
        fwd_residual(l, b, i, n - 1).sub_spec(l(i, n - 1).mul_spec(fwd_entry(l, b, n - 1)))
    }
}

/// The element `i` of the solution `y` of `l * y = b` for a lower
/// triangular `l`.
pub open spec fn fwd_entry<T: Scalar>(l: spec_fn(int, int) -> T, b: spec_fn(int) -> T, i: int) -> T
    decreases i, 1int,
{
    if i < 0 {
        b(i)
    } else {
        fwd_residual(l, b, i, i).div_spec(l(i, i))
    }
}

/// What is left of `y[i]` after the products `l[p, i] * x[p]` for
/// `i < p < q` have been taken from it, one after the other in the order
/// of `p`, where `x` solves `lt * x = y` in `n` unknowns.
pub open spec fn back_residual<T: Scalar>(
    l: spec_fn(int, int) -> T,
    y: spec_fn(int) -> T,
    n: int,
    i: int,
    q: int,
) -> T
    decreases n - i, 0int, q,
{
    if i < 0 || q <= i + 1 || q > n {
        y(i)
    } else {
        back_residual(l, y, n, i, q - 1).sub_spec(
            l(q - 1, i).mul_spec(back_entry(l, y, n, q - 1)),
        )
    }
}

/// The element `i` of the solution `x` of `lt * x = y` in `n` unknowns,
/// `lt` the transpose of a lower triangular `l`.
pub open spec fn back_entry<T: Scalar>(
    l: spec_fn(int, int) -> T,
    y: spec_fn(int) -> T,
    n: int,
    i: int,
) -> T
    decreases n - i, 1int, 0int,
{
    if i < 0 || i >= n {
        y(i)
    } else {
        back_residual(l, y, n, i, n).div_spec(l(i, i))
    }
}

/// Whether some diagonal element among the first `n` is zero.
pub open spec fn has_zero_pivot<T: Scalar>(l: spec_fn(int, int) -> T, n: int) -> bool {
    exists|i: int| 0 <= i < n && #[trigger] l(i, i) == T::zero_spec()
}

/// Whether the system of `l` and `b` is well shaped: `l` is square and `b`
/// has as many elements as `l` has rows.
pub open spec fn system_fits<T: Scalar, L: BasicMatrix<T>, V: Vector<T>>(l: &L, b: &V) -> bool {
    l.rows() == l.cols() && b.size() == l.rows()
}

/// The forward solution depends only on the lower triangle of `l` and on
/// the elements of `b` up to the one asked for.
pub proof fn lemma_fwd_agree<T: Scalar>(
    l1: spec_fn(int, int) -> T,
    b1: spec_fn(int) -> T,
    l2: spec_fn(int, int) -> T,
    b2: spec_fn(int) -> T,
    i: int,
    n: int,
)
    requires
        0 <= n <= i,
        forall|x: int, y: int| 0 <= y <= x <= i ==> #[trigger] l1(x, y) == l2(x, y),
        forall|x: int| 0 <= x <= i ==> #[trigger] b1(x) == b2(x),
    ensures
        fwd_residual(l1, b1, i, n) == fwd_residual(l2, b2, i, n),
        n == i ==> fwd_entry(l1, b1, i) == fwd_entry(l2, b2, i),
    decreases i, n,
{
    if n > 0 {
        lemma_fwd_agree(l1, b1, l2, b2, i, n - 1);
        lemma_fwd_agree(l1, b1, l2, b2, n - 1, n - 1);
    }
    if n == i {
        assert(fwd_entry(l1, b1, i) == fwd_residual(l1, b1, i, i).div_spec(l1(i, i)));
        assert(fwd_entry(l2, b2, i) == fwd_residual(l2, b2, i, i).div_spec(l2(i, i)));
    }
}

/// The backward solution depends only on the lower triangle of `l` and on
/// the elements of `y` from the one asked for on.
pub proof fn lemma_back_agree<T: Scalar>(
    l1: spec_fn(int, int) -> T,
    y1: spec_fn(int) -> T,
    l2: spec_fn(int, int) -> T,
    y2: spec_fn(int) -> T,
    n: int,
    i: int,
    q: int,
)
    requires
        0 <= i < q <= n,
        forall|x: int, y: int| 0 <= y <= x < n ==> #[trigger] l1(x, y) == l2(x, y),
        forall|x: int| 0 <= x < n ==> #[trigger] y1(x) == y2(x),
    ensures
        back_residual(l1, y1, n, i, q) == back_residual(l2, y2, n, i, q),
        q == n ==> back_entry(l1, y1, n, i) == back_entry(l2, y2, n, i),
    decreases n - i, q,
{
    if q > i + 1 {
        lemma_back_agree(l1, y1, l2, y2, n, i, q - 1);
        lemma_back_agree(l1, y1, l2, y2, n, q - 1, n);
    }
    if q == n {
        assert(back_entry(l1, y1, n, i) == back_residual(l1, y1, n, i, n).div_spec(l1(i, i)));
        assert(back_entry(l2, y2, n, i) == back_residual(l2, y2, n, i, n).div_spec(l2(i, i)));
    }
}

/// Solves `l * y = b` for `y` by forward substitution, reading the lower
/// triangle of `l`.
///
/// `DimensionMismatch` where `l` is not square or `b` has another length;
/// else `SingularMatrix` where a diagonal element of `l` is zero.
pub fn solve_lower<T: Scalar, L: BasicMatrix<T>, V: Vector<T>>(l: &L, b: &V) -> (r: Result<
    Vec<T>,
    MatrixError,
>)
    requires
        l.wf(),
        b.wf(),
    ensures
        !system_fits(l, b) ==> r is Err && r->Err_0 == MatrixError::DimensionMismatch,
        system_fits(l, b) && has_zero_pivot(entries_of(l), l.rows() as int) ==> r is Err
            && r->Err_0 == MatrixError::SingularMatrix,
        system_fits(l, b) && !has_zero_pivot(entries_of(l), l.rows() as int) ==> r is Ok,
        r is Ok ==> (r->Ok_0)@.len() == l.rows(),
        r is Ok ==> forall|i: int|
            0 <= i < l.rows() ==> #[trigger] (r->Ok_0)@[i] == fwd_entry(
                entries_of(l),
                elems_of(b),
                i,
            ),
{
    let n = l.num_rows();
    if l.num_cols() != n || b.len() != n {
        return Err(MatrixError::DimensionMismatch);
    }
    let ghost lf = entries_of(l);
    let ghost bf = elems_of(b);
    let mut y: Vec<T> = Vec::new();
    let mut i: usize = 0;
    while i < n
        invariant
            l.wf(),
            b.wf(),
            n == l.rows(),
            n == l.cols(),
            n == b.size(),
            lf == entries_of(l),
            bf == elems_of(b),
            i <= n,
            y@.len() == i,
            forall|p: int| 0 <= p < i ==> #[trigger] lf(p, p) != T::zero_spec(),
            forall|p: int| 0 <= p < i ==> #[trigger] y@[p] == fwd_entry(lf, bf, p),
        decreases n - i,
    {
        let piv = known(l.get(i, i));
        if piv.is_zero() {
            assert(lf(i as int, i as int) == T::zero_spec());
            return Err(MatrixError::SingularMatrix);
        }
        let mut s = known(b.get(i));
        let mut p: usize = 0;
        while p < i
            invariant
                l.wf(),
                n == l.rows(),
                n == l.cols(),
                lf == entries_of(l),
                i < n,
                p <= i,
                y@.len() == i,
                forall|q: int| 0 <= q < i ==> #[trigger] y@[q] == fwd_entry(lf, bf, q),
                s == fwd_residual(lf, bf, i as int, p as int),
            decreases i - p,
        {
            let lip = known(l.get(i, p));
            s = s.sub(lip.mul(y[p]));
            p += 1;
        }
        y.push(s.div(piv));
        i += 1;
    }
    proof {
        if has_zero_pivot(lf, n as int) {
            let w = choose|w: int| 0 <= w < n && #[trigger] lf(w, w) == T::zero_spec();
            assert(lf(w, w) != T::zero_spec());
        }
    }
    Ok(y)
}

/// Solves `lt * x = y` for `x` by backward substitution, `lt` being the
/// transpose of `l`; only the lower triangle of `l` is read.
///
/// `DimensionMismatch` where `l` is not square or `y` has another length;
/// else `SingularMatrix` where a diagonal element of `l` is zero.
pub fn solve_upper_transposed<T: Scalar, L: BasicMatrix<T>, V: Vector<T>>(l: &L, y: &V) -> (r:
    Result<Vec<T>, MatrixError>)
    requires
        l.wf(),
        y.wf(),
    ensures
        !system_fits(l, y) ==> r is Err && r->Err_0 == MatrixError::DimensionMismatch,
        system_fits(l, y) && has_zero_pivot(entries_of(l), l.rows() as int) ==> r is Err
            && r->Err_0 == MatrixError::SingularMatrix,
        system_fits(l, y) && !has_zero_pivot(entries_of(l), l.rows() as int) ==> r is Ok,
        r is Ok ==> (r->Ok_0)@.len() == l.rows(),
        r is Ok ==> forall|i: int|
            0 <= i < l.rows() ==> #[trigger] (r->Ok_0)@[i] == back_entry(
                entries_of(l),
                elems_of(y),
                l.rows() as int,
                i,
            ),
{
    let n = l.num_rows();
    if l.num_cols() != n || y.len() != n {
        return Err(MatrixError::DimensionMismatch);
    }
    let ghost lf = entries_of(l);
    let ghost yf = elems_of(y);
    let mut x: Vec<T> = Vec::new();
    let mut c: usize = 0;
    while c < n
        invariant
            y.wf(),
            n == y.size(),
            yf == elems_of(y),
            c <= n,
            x@.len() == c,
            forall|p: int| 0 <= p < c ==> #[trigger] x@[p] == yf(p),
        decreases n - c,
    {
        x.push(known(y.get(c)));
        c += 1;
    }
    let mut i: usize = n;
    while i > 0
        invariant
            l.wf(),
            y.wf(),
            n == l.rows(),
            n == l.cols(),
            n == y.size(),
            lf == entries_of(l),
            yf == elems_of(y),
            i <= n,
            x@.len() == n,
            forall|p: int| i <= p < n ==> #[trigger] lf(p, p) != T::zero_spec(),
            forall|p: int| i <= p < n ==> #[trigger] x@[p] == back_entry(lf, yf, n as int, p),
            forall|p: int| 0 <= p < i ==> #[trigger] x@[p] == yf(p),
        decreases i,
    {
        i -= 1;
        let piv = known(l.get(i, i));
        if piv.is_zero() {
            assert(lf(i as int, i as int) == T::zero_spec());
            return Err(MatrixError::SingularMatrix);
        }
        let mut s = x[i];
        let mut p: usize = i + 1;
        while p < n
            invariant
                l.wf(),
                n == l.rows(),
                n == l.cols(),
                lf == entries_of(l),
                i < n,
                i < p <= n,
                x@.len() == n,
                forall|q: int| i < q < n ==> #[trigger] x@[q] == back_entry(lf, yf, n as int, q),
                s == back_residual(lf, yf, n as int, i as int, p as int),
            decreases n - p,
        {
            let lpi = known(l.get(p, i));
            s = s.sub(lpi.mul(x[p]));
            p += 1;
        }
        x.set(i, s.div(piv));
    }
    proof {
        if has_zero_pivot(lf, n as int) {
            let w = choose|w: int| 0 <= w < n && #[trigger] lf(w, w) == T::zero_spec();
            assert(lf(w, w) != T::zero_spec());
        }
    }
    Ok(x)
}

/// The product of `l[i, p]` and the element `p` of the forward solution.
pub open spec fn fwd_term<T: Scalar>(
    l: spec_fn(int, int) -> T,
    b: spec_fn(int) -> T,
    i: int,
    p: int,
) -> T {
    l(i, p).mul_spec(fwd_entry(l, b, p))
}

/// Whether the element `i` of the forward solution came out even:
/// multiplied by the pivot it gives the residual it was made from.
pub open spec fn fwd_exact<T: Scalar>(l: spec_fn(int, int) -> T, b: spec_fn(int) -> T, i: int) -> bool {
    fwd_term(l, b, i, i) == fwd_residual(l, b, i, i)
}

/// Row `i` of `l` times the forward solution, over the columns before `n`:
/// the terms added one after the other, in the order of the columns, to
/// zero.
pub open spec fn fwd_row_sum<T: Scalar>(
    l: spec_fn(int, int) -> T,
    b: spec_fn(int) -> T,
    i: int,
    n: int,
) -> T
    decreases n,
{
    if n <= 0 {
        T::zero_spec()
    } else {
        fwd_row_sum(l, b, i, n - 1).add_spec(fwd_term(l, b, i, n - 1))
    }
}

/// Where the element `i` of the forward solution came out even, the
/// residual after `m` columns and the terms of the columns before `m` add
/// up to the whole of row `i` times the solution.
pub proof fn lemma_fwd_residual_sum<T: Scalar>(
    l: spec_fn(int, int) -> T,
    b: spec_fn(int) -> T,
    i: int,
    m: int,
)
    requires
        0 <= m <= i,
        fwd_exact(l, b, i),
    ensures
        fwd_residual(l, b, i, m).add_spec(fwd_row_sum(l, b, i, m)) == fwd_row_sum(l, b, i, i + 1),
    decreases i - m,
{
    let rest = fwd_residual(l, b, i, m);
    let sum = fwd_row_sum(l, b, i, m);
    let term = fwd_term(l, b, i, m);
    if m == i {
        T::lemma_add_comm(rest, sum);
    } else {
        lemma_fwd_residual_sum(l, b, i, m + 1);
        let next = fwd_residual(l, b, i, m + 1);
        assert(next == rest.sub_spec(term));
        T::lemma_sub_add(rest, term);
        T::lemma_add_assoc(next, term, sum);
        T::lemma_add_comm(term, sum);
    }
}

/// Where the element `i` of the forward solution came out even, row `i` of
/// `l` times the solution is `b[i]`: the solution solves the system.
pub proof fn lemma_forward_solves<T: Scalar>(
    l: spec_fn(int, int) -> T,
    b: spec_fn(int) -> T,
    i: int,
)
    requires
        0 <= i,
        fwd_exact(l, b, i),
    ensures
        fwd_row_sum(l, b, i, i + 1) == b(i),
{
    lemma_fwd_residual_sum(l, b, i, 0);
    T::lemma_add_zero(b(i));
}

/// The product of `l[p, i]` and the element `p` of the backward solution.
pub open spec fn back_term<T: Scalar>(
    l: spec_fn(int, int) -> T,
    y: spec_fn(int) -> T,
    n: int,
    i: int,
    p: int,
) -> T {
    l(p, i).mul_spec(back_entry(l, y, n, p))
}

/// Whether the element `i` of the backward solution came out even:
/// multiplied by the pivot it gives the residual it was made from.
pub open spec fn back_exact<T: Scalar>(
    l: spec_fn(int, int) -> T,
    y: spec_fn(int) -> T,
    n: int,
    i: int,
) -> bool {
    back_term(l, y, n, i, i) == back_residual(l, y, n, i, n)
}

/// Column `i` of `l` times the backward solution, over the rows from
/// `lo` to before `hi`: the terms added one after the other, in the order
/// of the rows, to zero.
pub open spec fn back_col_sum<T: Scalar>(
    l: spec_fn(int, int) -> T,
    y: spec_fn(int) -> T,
    n: int,
    i: int,
    lo: int,
    hi: int,
) -> T
    decreases hi - lo,
{
    if hi <= lo {
        T::zero_spec()
    } else {
        back_col_sum(l, y, n, i, lo, hi - 1).add_spec(back_term(l, y, n, i, hi - 1))
    }
}

/// The diagonal term put before the terms of the rows below the diagonal
/// is the sum over the rows from the diagonal on.
pub proof fn lemma_back_sum_head<T: Scalar>(
    l: spec_fn(int, int) -> T,
    y: spec_fn(int) -> T,
    n: int,
    i: int,
    q: int,
)
    requires
        i + 1 <= q,
    ensures
        back_term(l, y, n, i, i).add_spec(back_col_sum(l, y, n, i, i + 1, q)) == back_col_sum(
            l,
            y,
            n,
            i,
            i,
            q,
        ),
    decreases q - i,
{
    let head = back_term(l, y, n, i, i);
    if q == i + 1 {
        T::lemma_add_zero(head);
        assert(back_col_sum(l, y, n, i, i, i) == T::zero_spec());
        assert(back_col_sum(l, y, n, i, i + 1, i + 1) == T::zero_spec());
    } else {
        lemma_back_sum_head(l, y, n, i, q - 1);
        T::lemma_add_assoc(
            head,
            back_col_sum(l, y, n, i, i + 1, q - 1),
            back_term(l, y, n, i, q - 1),
        );
    }
}

/// Where the element `i` of the backward solution came out even, the
/// residual after the rows before `q` and the terms of those rows add up to
/// the whole of column `i` of `l` times the solution.
pub proof fn lemma_back_residual_sum<T: Scalar>(
    l: spec_fn(int, int) -> T,
    y: spec_fn(int) -> T,
    n: int,
    i: int,
    q: int,
)
    requires
        0 <= i < q <= n,
        back_exact(l, y, n, i),
    ensures
        back_residual(l, y, n, i, q).add_spec(back_col_sum(l, y, n, i, i + 1, q)) == back_col_sum(
            l,
            y,
            n,
            i,
            i,
            n,
        ),
    decreases n - q,
{
    let rest = back_residual(l, y, n, i, q);
    let sum = back_col_sum(l, y, n, i, i + 1, q);
    if q == n {
        lemma_back_sum_head(l, y, n, i, n);
    } else {
        lemma_back_residual_sum(l, y, n, i, q + 1);
        let term = back_term(l, y, n, i, q);
        let next = back_residual(l, y, n, i, q + 1);
        assert(next == rest.sub_spec(term));
        T::lemma_sub_add(rest, term);
        T::lemma_add_assoc(next, term, sum);
        T::lemma_add_comm(term, sum);
    }
}

/// Where the element `i` of the backward solution came out even, column
/// `i` of `l` times the solution is `y[i]`: the solution solves the system
/// of the transpose.
pub proof fn lemma_backward_solves<T: Scalar>(
    l: spec_fn(int, int) -> T,
    y: spec_fn(int) -> T,
    n: int,
    i: int,
)
    requires
        0 <= i < n,
        back_exact(l, y, n, i),
    ensures
        back_col_sum(l, y, n, i, i, n) == y(i),
{
    lemma_back_residual_sum(l, y, n, i, i + 1);
    T::lemma_add_zero(y(i));
}

} // verus!
