//! The kernels cut into independent pieces of work.
//!
//! A product is cut into bands of rows of the result, the trailing update
//! of a factorisation into bands of rows of the trailing block, an inverse
//! into bands of columns. Each piece reads shared operands and yields a
//! value of its own, so the pieces may run in any order or side by side;
//! the pieces are then put into the result one after the other. The bands
//! come from `band_cuts`, whose cut points increase strictly from one end
//! of the range to the other: no two bands share a row and no row is left
//! out.
//!
//! The functions whose names end in `_banded` run the pieces in turn. They
//! state that pieces and assembly together give what the undivided kernel
//! gives.
use vstd::prelude::*;
use crate::matrix::algorithms::{is_product, known, product_entry, zeros};
use crate::matrix::block_cholesky::{
    factor_in_steps, in_trailing, is_factor_of, lemma_schur_same, schur_tile, schur_value,
    store_tile_lower,
};
use crate::matrix::blocked::{in_tile, lemma_inner_window, mat_mul_blocked, store_tile};
use crate::matrix::cholesky::{chol_entry, cholesky_seq_inplace, lemma_same_factor, pivots_ok};
use crate::matrix::inverse::{
    column_entry, factor_of, inverse_column, inverse_entry, is_inverse_of, lemma_column_agree,
    lemma_pivots_nonzero,
};
use crate::matrix::solve::{entries_of, has_zero_pivot};
use crate::matrix::{BasicMatrix, BasicMatrixMut, Matrix, MatrixError, Ring, Scalar, SubMatrix};

verus! {

/// The share of one part where `rem` items are dealt to `p` parts: `rem`
/// divided by `p`, rounded up.
pub open spec fn share(rem: int, p: int) -> int {
    if rem % p == 0 {
        rem / p
    } else {
        rem / p + 1
    }
}

/// A share of at least one item among at least one part is at least one
/// item and at most all; the only part gets all.
pub proof fn lemma_share(rem: int, p: int)
    requires
        rem >= 1,
        p >= 1,
    ensures
        1 <= share(rem, p) <= rem,
        p == 1 ==> share(rem, p) == rem,
{
    let q = rem / p;
    let m = rem % p;
    vstd::arithmetic::div_mod::lemma_fundamental_div_mod(rem, p);
    vstd::arithmetic::div_mod::lemma_mod_bound(rem, p);
    assert(rem == p * q + m);
    assert(q >= 0 && (q >= 1 ==> p * q >= q) && (q == 0 ==> p * q == 0) && (p >= 2 ==> p * q >= 2
        * q) && (p == 1 ==> p * q == q)) by (nonlinear_arith)
        requires
            p >= 1,
            rem >= 1,
            0 <= m < p,
            rem == p * q + m,
    ;
}

/// Whether `cuts` cuts the range from `lo` to `hi` into at most `parts`
/// bands: it starts at `lo`, ends at `hi`, and each band takes its share
/// of what is still left for the parts that are still to come.
pub open spec fn is_band_plan(cuts: Seq<usize>, lo: int, hi: int, parts: int) -> bool {
    &&& 1 <= cuts.len() <= parts + 1
    &&& cuts[0] == lo
    &&& cuts[cuts.len() - 1] == hi
    &&& forall|i: int|
        0 <= i < cuts.len() - 1 ==> #[trigger] cuts[i + 1] == cuts[i] + share(
            hi - cuts[i],
            parts - i,
        )
    &&& forall|i: int, j: int| 0 <= i < j < cuts.len() ==> cuts[i] < cuts[j]
}

/// The cut points of the bands that divide the range from `lo` to `hi`
/// among at most `parts` parts, as evenly as whole numbers allow. Band `i`
/// runs from cut `i` to cut `i + 1`.
pub fn band_cuts(lo: usize, hi: usize, parts: usize) -> (cuts: Vec<usize>)
    requires
        lo <= hi,
        parts >= 1,
    ensures
        is_band_plan(cuts@, lo as int, hi as int, parts as int),
{
    let mut cuts: Vec<usize> = Vec::new();
    cuts.push(lo);
    let mut cur: usize = lo;
    let mut used: usize = 0;
    while cur < hi
        invariant
            lo <= cur <= hi,
            used <= parts,
            used < parts || cur == hi,
            cuts@.len() == used + 1,
            cuts@[0] == lo,
            cuts@[used as int] == cur,
            forall|i: int|
                0 <= i < used ==> #[trigger] cuts@[i + 1] == cuts@[i] + share(
                    hi - cuts@[i],
                    parts - i,
                ),
            forall|i: int, j: int| 0 <= i < j < cuts@.len() ==> cuts@[i] < cuts@[j],
        decreases hi - cur,
    {
        let rem = hi - cur;
        let p = parts - used;
        proof {
            lemma_share(rem as int, p as int);
        }
        let size = if rem % p == 0 {
            rem / p
        } else {
            rem / p + 1
        };
        let ghost before = cuts@;
        cur = cur + size;
        cuts.push(cur);
        used = used + 1;
        proof {
            assert forall|i: int| 0 <= i < used implies #[trigger] cuts@[i + 1] == cuts@[i]
                + share(hi - cuts@[i], parts - i) by {
                if i < used - 1 {
                    assert(cuts@[i + 1] == before[i + 1]);
                }
            }
        }
    }
    cuts
}

/// The cut points of a plan lie in the range, in order.
pub proof fn lemma_plan_bounds(cuts: Seq<usize>, lo: int, hi: int, parts: int, i: int)
    requires
        is_band_plan(cuts, lo, hi, parts),
        0 <= i < cuts.len() - 1,
    ensures
        lo <= cuts[i] < cuts[i + 1] <= hi,
{
    if i > 0 {
        assert(cuts[0] < cuts[i]);
    }
    if i + 1 < cuts.len() - 1 {
        assert(cuts[i + 1] < cuts[cuts.len() - 1]);
    }
}

/// Whether the position `x` lies in band `i` of `cuts`.
pub open spec fn in_band(cuts: Seq<usize>, i: int, x: int) -> bool {
    0 <= i < cuts.len() - 1 && cuts[i] <= x < cuts[i + 1]
}

/// The bands of a plan cover the range and do not overlap: each position
/// of the range lies in exactly one band.
pub proof fn lemma_plan_partitions(cuts: Seq<usize>, lo: int, hi: int, parts: int, x: int)
    requires
        is_band_plan(cuts, lo, hi, parts),
        lo <= x < hi,
    ensures
        exists|i: int| in_band(cuts, i, x),
        forall|i: int, j: int| in_band(cuts, i, x) && in_band(cuts, j, x) ==> i == j,
{
    lemma_plan_covers(cuts, lo, hi, parts, x, cuts.len() - 1);
    assert forall|i: int, j: int| in_band(cuts, i, x) && in_band(cuts, j, x) implies i == j by {
        if i < j {
            if i + 1 < j {
                assert(cuts[i + 1] < cuts[j]);
            }
        } else if j < i {
            if j + 1 < i {
                assert(cuts[j + 1] < cuts[i]);
            }
        }
    }
}

/// A position before cut `m` lies in one of the first `m` bands.
proof fn lemma_plan_covers(cuts: Seq<usize>, lo: int, hi: int, parts: int, x: int, m: int)
    requires
        is_band_plan(cuts, lo, hi, parts),
        0 <= m <= cuts.len() - 1,
        lo <= x < cuts[m],
    ensures
        exists|i: int| i < m && in_band(cuts, i, x),
    decreases m,
{
    if m == 0 {
    } else if cuts[m - 1] <= x {
        assert(in_band(cuts, m - 1, x));
    } else {
        lemma_plan_covers(cuts, lo, hi, parts, x, m - 1);
        let i = choose|i: int| i < m - 1 && in_band(cuts, i, x);
        assert(i < m && in_band(cuts, i, x));
    }
}

/// The band of `len` rows from row `start` on of the product of `a` and
/// `b`, in storage of its own. `DimensionMismatch` where `a` has not as
/// many columns as `b` has rows, else `IndexOutOfBounds` where `a` has not
/// the rows of the band.
pub fn mat_mul_band<T: Ring, A: BasicMatrix<T>, B: BasicMatrix<T>>(
    a: &A,
    b: &B,
    start: usize,
    len: usize,
) -> (r: Result<Matrix<T>, MatrixError>)
    requires
        a.wf(),
        b.wf(),
        len * b.cols() <= usize::MAX,
    ensures
        a.cols() != b.rows() ==> r is Err && r->Err_0 == MatrixError::DimensionMismatch,
        a.cols() == b.rows() && start + len > a.rows() ==> r is Err && r->Err_0
            == MatrixError::IndexOutOfBounds,
        a.cols() == b.rows() && start + len <= a.rows() ==> r is Ok,
        r is Ok ==> (r->Ok_0).wf() && (r->Ok_0).rows() == len && (r->Ok_0).cols() == b.cols(),
        r is Ok ==> forall|x: int, y: int|
            0 <= x < len && 0 <= y < b.cols() ==> #[trigger] (r->Ok_0).at(x, y) == product_entry(
                a,
                b,
                start + x,
                y,
            ),
{
    if a.num_cols() != b.num_rows() {
        return Err(MatrixError::DimensionMismatch);
    }
    let k = a.num_cols();
    let rows = match SubMatrix(a, start, 0, len, k) {
        Ok(rows) => rows,
        Err(_) => {
            return Err(MatrixError::IndexOutOfBounds);
        },
    };
    let whole = known(SubMatrix(b, 0, 0, k, b.num_cols()));
    let band = known(mat_mul_blocked(&rows, &whole));
    proof {
        assert forall|x: int, y: int| 0 <= x < len && 0 <= y < b.cols() implies #[trigger] band.at(
            x,
            y,
        ) == product_entry(a, b, start + x, y) by {
            assert(band.at(x, y) == product_entry(&rows, &whole, x, y));
            lemma_inner_window(&rows, &whole, x, y, k as int);
        }
    }
    Ok(band)
}

/// The product of `a` and `b`, band of rows by band of rows, in at most
/// `parts` bands; `DimensionMismatch` where `a` has not as many columns as
/// `b` has rows. The result is the one that the undivided product gives.
pub fn mat_mul_banded<T: Ring, A: BasicMatrix<T>, B: BasicMatrix<T>>(
    a: &A,
    b: &B,
    parts: usize,
) -> (r: Result<Matrix<T>, MatrixError>)
    requires
        a.wf(),
        b.wf(),
        a.rows() * b.cols() <= usize::MAX,
        parts >= 1,
    ensures
        a.cols() == b.rows() ==> r is Ok && is_product(&r->Ok_0, a, b),
        a.cols() != b.rows() ==> r is Err && r->Err_0 == MatrixError::DimensionMismatch,
{
    if a.num_cols() != b.num_rows() {
        return Err(MatrixError::DimensionMismatch);
    }
    let m = a.num_rows();
    let n = b.num_cols();
    let cuts = band_cuts(0, m, parts);
    let mut c: Matrix<T> = zeros(m, n);
    let mut i: usize = 0;
    while i < cuts.len() - 1
        invariant
            a.wf(),
            b.wf(),
            m == a.rows(),
            n == b.cols(),
            a.cols() == b.rows(),
            m * n <= usize::MAX,
            is_band_plan(cuts@, 0, m as int, parts as int),
            i <= cuts@.len() - 1,
            c.wf(),
            c.rows() == m,
            c.cols() == n,
            forall|x: int, y: int|
                0 <= x < cuts@[i as int] && 0 <= y < n ==> #[trigger] c.at(x, y) == product_entry(
                    a,
                    b,
                    x,
                    y,
                ),
        decreases cuts@.len() - i,
    {
        proof {
            lemma_plan_bounds(cuts@, 0, m as int, parts as int, i as int);
        }
        let start = cuts[i];
        let len = cuts[i + 1] - start;
        proof {
            assert(len * n <= m * n) by (nonlinear_arith)
                requires
                    len <= m,
                    0 <= n,
            ;
        }
        let band = known(mat_mul_band(a, b, start, len));
        let done = store_tile(&mut c, &band, start, 0);
        assert(done is Ok);
        i += 1;
    }
    Ok(c)
}

/// The trailing update of one step in at most `parts` bands of rows: every
/// element on or below the diagonal of the block that starts at `t0` loses
/// the products of the panel columns `k0 <= p < t0`; nothing else changes.
/// With `parts` zero nothing is divided: the update is one band.
pub fn schur_update_banded<T: Ring>(w: &mut Matrix<T>, k0: usize, t0: usize, parts: usize)
    requires
        old(w).wf(),
        old(w).rows() == old(w).cols(),
        k0 <= t0 <= old(w).rows(),
    ensures
        final(w).wf(),
        final(w).rows() == old(w).rows(),
        final(w).cols() == old(w).cols(),
        forall|x: int, y: int|
            0 <= x < old(w).rows() && 0 <= y < old(w).cols() ==> #[trigger] final(w).at(x, y) == (
            if in_trailing(x, y, t0 as int) {
                schur_value(old(w), x, y, k0 as int, t0 as int)
            } else {
                old(w).at(x, y)
            }),
{
    let ghost w0 = *w;
    let n = w.num_rows();
    let count = if parts == 0 {
        1
    } else {
        parts
    };
    let cuts = band_cuts(t0, n, count);
    let mut i: usize = 0;
    while i < cuts.len() - 1
        invariant
            w0 == *old(w),
            w0.wf(),
            n == w0.rows(),
            n == w0.cols(),
            k0 <= t0 <= n,
            is_band_plan(cuts@, t0 as int, n as int, count as int),
            i <= cuts@.len() - 1,
            w.wf(),
            w.rows() == n,
            w.cols() == n,
            forall|x: int, y: int|
                0 <= x < n && 0 <= y < n ==> #[trigger] w.at(x, y) == (if in_trailing(
                    x,
                    y,
                    t0 as int,
                ) && x < cuts@[i as int] {
                    schur_value(&w0, x, y, k0 as int, t0 as int)
                } else {
                    w0.at(x, y)
                }),
        decreases cuts@.len() - i,
    {
        proof {
            lemma_plan_bounds(cuts@, t0 as int, n as int, count as int, i as int);
        }
        let start = cuts[i];
        let len = cuts[i + 1] - start;
        let width = cuts[i + 1] - t0;
        proof {
            w.lemma_fits();
            assert(len * width <= n * n) by (nonlinear_arith)
                requires
                    len <= n,
                    width <= n,
            ;
        }
        let ghost w1 = *w;
        let t = schur_tile(&*w, k0, t0, start, t0, len, width);
        let done = store_tile_lower(w, &t, start, t0);
        proof {
            assert forall|x: int, y: int| 0 <= x < n && 0 <= y < n implies #[trigger] w.at(x, y)
                == (if in_trailing(x, y, t0 as int) && x < cuts@[i + 1] {
                schur_value(&w0, x, y, k0 as int, t0 as int)
            } else {
                w0.at(x, y)
            }) by {
                if y <= x && in_tile(x, y, start as int, t0 as int, len as int, width as int) {
                    assert(w.at(x, y) == t.at(x - start, y - t0));
                    lemma_schur_same(&w1, &w0, x, y, k0 as int, t0 as int, t0 as int);
                } else {
                    assert(w.at(x, y) == w1.at(x, y));
                }
            }
        }
        i += 1;
    }
}

/// The Cholesky factor of the square matrix `a` in storage of its own,
/// in steps of `bs` columns, the trailing update of each step in at most
/// `parts` bands of rows. The result is the one that the undivided
/// factorisation gives; `NotPositiveDefinite` where a pivot has no positive
/// radicand.
pub fn cholesky_banded<T: Scalar, A: BasicMatrix<T>>(a: &A, bs: usize, parts: usize) -> (r: Result<
    Matrix<T>,
    MatrixError,
>)
    requires
        a.wf(),
        a.rows() == a.cols(),
        a.rows() * a.cols() <= usize::MAX,
        bs >= 1,
        parts >= 1,
    ensures
        r is Ok <==> pivots_ok(a, a.rows() as int),
        r is Ok ==> is_factor_of(&r->Ok_0, a),
        r is Err ==> r->Err_0 == MatrixError::NotPositiveDefinite,
{
    factor_in_steps(a, bs, parts)
}

/// Whether `x` is column `c` of the inverse of `l * lt` in `n` unknowns.
pub open spec fn is_inverse_column<T: Scalar>(
    x: Seq<T>,
    l: spec_fn(int, int) -> T,
    n: int,
    c: int,
) -> bool {
    &&& x.len() == n
    &&& forall|i: int| 0 <= i < n ==> #[trigger] x[i] == column_entry(l, n, c, i)
}

/// The columns `lo <= c < hi` of the inverse of `l * lt`, one vector for
/// each, by substitution on the lower triangle of `l`.
/// `DimensionMismatch` where `l` is not square; else `SingularMatrix` where
/// there is a column to solve and a diagonal element of `l` is zero.
pub fn inverse_columns<T: Scalar, L: BasicMatrix<T>>(l: &L, lo: usize, hi: usize) -> (r: Result<
    Vec<Vec<T>>,
    MatrixError,
>)
    requires
        l.wf(),
        lo <= hi,
    ensures
        l.rows() != l.cols() ==> r is Err && r->Err_0 == MatrixError::DimensionMismatch,
        l.rows() == l.cols() && lo < hi && has_zero_pivot(entries_of(l), l.rows() as int)
            ==> r is Err && r->Err_0 == MatrixError::SingularMatrix,
        l.rows() == l.cols() && !(lo < hi && has_zero_pivot(entries_of(l), l.rows() as int))
            ==> r is Ok,
        r is Ok ==> (r->Ok_0)@.len() == hi - lo,
        r is Ok ==> forall|c: int|
            0 <= c < hi - lo ==> is_inverse_column(
                (#[trigger] (r->Ok_0)@[c])@,
                entries_of(l),
                l.rows() as int,
                lo + c,
            ),
{
    if l.num_rows() != l.num_cols() {
        return Err(MatrixError::DimensionMismatch);
    }
    let mut cols: Vec<Vec<T>> = Vec::new();
    let mut c: usize = lo;
    while c < hi
        invariant
            l.wf(),
            l.rows() == l.cols(),
            lo <= c <= hi,
            c > lo ==> !has_zero_pivot(entries_of(l), l.rows() as int),
            cols@.len() == c - lo,
            forall|d: int|
                0 <= d < c - lo ==> is_inverse_column(
                    (#[trigger] cols@[d])@,
                    entries_of(l),
                    l.rows() as int,
                    lo + d,
                ),
        decreases hi - c,
    {
        let x = match inverse_column(l, c) {
            Ok(x) => x,
            Err(_) => {
                return Err(MatrixError::SingularMatrix);
            },
        };
        let ghost before = cols@;
        cols.push(x);
        proof {
            assert forall|d: int| 0 <= d < c + 1 - lo implies is_inverse_column(
                (#[trigger] cols@[d])@,
                entries_of(l),
                l.rows() as int,
                lo + d,
            ) by {
                if d < c - lo {
                    assert(cols@[d] == before[d]);
                }
            }
        }
        c += 1;
    }
    Ok(cols)
}

/// Puts `cols` side by side into the matrix `inv` from column `lo` on:
/// column `lo + c` of `inv` becomes `cols[c]`; the rest of `inv` stays as
/// it is. `DimensionMismatch`, with `inv` unchanged, where a column has
/// not the rows of `inv` or the columns do not fit.
pub fn store_columns<T: Copy, M: BasicMatrixMut<T>>(inv: &mut M, cols: &Vec<Vec<T>>, lo: usize) -> (r:
    Result<(), MatrixError>)
    requires
        old(inv).wf(),
    ensures
        final(inv).wf(),
        final(inv).rows() == old(inv).rows(),
        final(inv).cols() == old(inv).cols(),
        r is Ok <==> columns_fit(cols@, old(inv).rows(), old(inv).cols(), lo as int),
        r is Err ==> r->Err_0 == MatrixError::DimensionMismatch,
        forall|x: int, y: int|
            0 <= x < old(inv).rows() && 0 <= y < old(inv).cols() ==> #[trigger] final(inv).at(x, y)
                == (if r is Ok && lo <= y < lo + cols@.len() {
                cols@[y - lo]@[x]
            } else {
                old(inv).at(x, y)
            }),
{
    let n = inv.num_rows();
    let width = inv.num_cols();
    if lo > width || cols.len() > width - lo {
        return Err(MatrixError::DimensionMismatch);
    }
    let mut c: usize = 0;
    while c < cols.len()
        invariant
            *inv == *old(inv),
            inv.wf(),
            n == inv.rows(),
            width == inv.cols(),
            c <= cols@.len(),
            forall|d: int| 0 <= d < c ==> (#[trigger] cols@[d])@.len() == n,
        decreases cols@.len() - c,
    {
        if cols[c].len() != n {
            return Err(MatrixError::DimensionMismatch);
        }
        c += 1;
    }
    let ghost before = *inv;
    let mut c: usize = 0;
    while c < cols.len()
        invariant
            before == *old(inv),
            before.wf(),
            n == before.rows(),
            width == before.cols(),
            lo + cols@.len() <= width,
            c <= cols@.len(),
            forall|d: int| 0 <= d < cols@.len() ==> (#[trigger] cols@[d])@.len() == n,
            inv.wf(),
            inv.rows() == n,
            inv.cols() == width,
            forall|x: int, y: int|
                0 <= x < n && 0 <= y < width ==> #[trigger] inv.at(x, y) == (if lo <= y < lo + c {
                    cols@[y - lo]@[x]
                } else {
                    before.at(x, y)
                }),
        decreases cols@.len() - c,
    {
        let mut i: usize = 0;
        while i < n
            invariant
                before.wf(),
                n == before.rows(),
                width == before.cols(),
                lo + cols@.len() <= width,
                c < cols@.len(),
                i <= n,
                forall|d: int| 0 <= d < cols@.len() ==> (#[trigger] cols@[d])@.len() == n,
                inv.wf(),
                inv.rows() == n,
                inv.cols() == width,
                forall|x: int, y: int|
                    0 <= x < n && 0 <= y < width ==> #[trigger] inv.at(x, y) == (if lo <= y < lo + c
                        || (y == lo + c && x < i) {
                        cols@[y - lo]@[x]
                    } else {
                        before.at(x, y)
                    }),
            decreases n - i,
        {
            let done = inv.set(i, lo + c, cols[c][i]);
            assert(done is Ok);
            i += 1;
        }
        c += 1;
    }
    Ok(())
}

/// Whether the columns `cols` can stand in a matrix of `rows` by `width`
/// elements from column `lo` on.
pub open spec fn columns_fit<T>(cols: Seq<Vec<T>>, rows: nat, width: nat, lo: int) -> bool {
    &&& lo + cols.len() <= width
    &&& forall|d: int| 0 <= d < cols.len() ==> (#[trigger] cols[d])@.len() == rows
}

/// The inverse of the square matrix `a`, symmetric and positive definite,
/// its columns solved in at most `parts` bands. The result is the one that
/// the undivided inverse gives; `NotPositiveDefinite` where the
/// factorisation meets a pivot whose radicand is not positive.
pub fn inverse_banded<T: Scalar, A: BasicMatrix<T>>(a: &A, parts: usize) -> (r: Result<
    Matrix<T>,
    MatrixError,
>)
    requires
        a.wf(),
        a.rows() == a.cols(),
        a.rows() * a.cols() <= usize::MAX,
        parts >= 1,
    ensures
        r is Ok <==> pivots_ok(a, a.rows() as int),
        r is Ok ==> is_inverse_of(&r->Ok_0, a),
        r is Err ==> r->Err_0 == MatrixError::NotPositiveDefinite,
{
    let n = a.num_rows();
    let mut l = crate::matrix::algorithms::copy_of(a);
    let ghost l0 = l;
    let factored = cholesky_seq_inplace(&mut l);
    proof {
        lemma_same_factor(&l0, a, n as int);
    }
    if factored.is_err() {
        return Err(MatrixError::NotPositiveDefinite);
    }
    proof {
        lemma_pivots_nonzero(a, n as int);
        if has_zero_pivot(entries_of(&l), n as int) {
            let w = choose|w: int| 0 <= w < n && #[trigger] entries_of(&l)(w, w) == T::zero_spec();
            assert(factor_of(a)(w, w) == T::zero_spec());
        }
    }
    let cuts = band_cuts(0, n, parts);
    let mut inv: Matrix<T> = zeros(n, n);
    let mut i: usize = 0;
    while i < cuts.len() - 1
        invariant
            a.wf(),
            n == a.rows(),
            n == a.cols(),
            l.wf(),
            l.rows() == n,
            l.cols() == n,
            !has_zero_pivot(entries_of(&l), n as int),
            forall|x: int, y: int|
                0 <= y <= x < n ==> #[trigger] l.at(x, y) == chol_entry(a, x, y),
            is_band_plan(cuts@, 0, n as int, parts as int),
            i <= cuts@.len() - 1,
            inv.wf(),
            inv.rows() == n,
            inv.cols() == n,
            forall|x: int, c: int|
                0 <= x < n && 0 <= c < cuts@[i as int] ==> #[trigger] inv.at(x, c)
                    == inverse_entry(a, x, c),
        decreases cuts@.len() - i,
    {
        proof {
            lemma_plan_bounds(cuts@, 0, n as int, parts as int, i as int);
        }
        let lo = cuts[i];
        let hi = cuts[i + 1];
        let cols = match inverse_columns(&l, lo, hi) {
            Ok(cols) => cols,
            Err(e) => {
                return Err(e);
            },
        };
        let ghost before = inv;
        let done = store_columns(&mut inv, &cols, lo);
        assert(done is Ok);
        proof {
            assert forall|x: int, c: int| 0 <= x < n && 0 <= c < hi implies #[trigger] inv.at(x, c)
                == inverse_entry(a, x, c) by {
                if c >= lo {
                    assert(is_inverse_column(
                        cols@[c - lo]@,
                        entries_of(&l),
                        n as int,
                        lo + (c - lo),
                    ));
                    lemma_column_agree(entries_of(&l), factor_of(a), n as int, c, x);
                } else {
                    assert(inv.at(x, c) == before.at(x, c));
                }
            }
        }
        i += 1;
    }
    Ok(inv)
}

} // verus!
