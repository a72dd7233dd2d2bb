//! Cholesky factorisation block by block.
//!
//! One step takes the leading block of what is left: it factors the block
//! on the diagonal, solves the panel below it row by row, and takes the
//! products of the panel from the trailing block, tile by tile. The
//! trailing block is then treated the same way. The steps are functions of
//! their own, each stated on the matrix it works on, so that a caller may
//! hand the tiles of the trailing update to workers of its own.
use vstd::prelude::*;
use crate::matrix::algorithms::{copy_of, known};
use crate::matrix::blocked::{in_tile, tile_side, BLOCK_SIZE};
use crate::matrix::cholesky::{
    chol_entry, chol_residual, cholesky_seq_inplace, factored_upto, lemma_same_factor, pivot_ok,
    pivots_ok,
};
use crate::matrix::par::schur_update_banded;
use crate::matrix::solve::{
    elems_of, entries_of, fwd_entry, fwd_residual, has_zero_pivot, lemma_fwd_agree, solve_lower,
};
use crate::matrix::{
    row, BasicMatrix, BasicMatrixMut, Create, Matrix, MatrixError, Ring, Scalar,
    SubMatrix, SubMatrixMut,
};

verus! {

/// The window of `b` by `b` elements of `w` on the diagonal at `k0`.
pub open spec fn diag_window<'a, M>(w: &'a M, k0: usize, b: usize) -> SubMatrix<'a, M> {
    SubMatrix { i: k0, j: k0, rows: b, cols: b, base: w }
}

/// The block of `w` on the diagonal at `k0`, as a function of the
/// coordinates inside the block.
pub open spec fn block_at<T: Copy, M: BasicMatrix<T>>(w: &M, k0: int) -> spec_fn(int, int) -> T {
    |p: int, q: int| w.at(k0 + p, k0 + q)
}

/// Row `x` of `w` from column `k0` on, as a function of the position.
pub open spec fn strip_at<T: Copy, M: BasicMatrix<T>>(w: &M, x: int, k0: int) -> spec_fn(int) -> T {
    |q: int| w.at(x, k0 + q)
}

/// Whether `(x, y)` lies in the lower triangle of the diagonal block of
/// side `b` at `k0`.
pub open spec fn in_diag_block(x: int, y: int, k0: int, b: int) -> bool {
    k0 <= y <= x < k0 + b
}

/// Factors the block of side `b` on the diagonal of `w` at `k0`: the lower
/// triangle of that block is replaced by the Cholesky factor of the block,
/// and nothing else changes. With `NotPositiveDefinite`, where a pivot of
/// the block has no positive radicand, `w` is left as it was.
pub fn factor_block<T: Scalar>(w: &mut Matrix<T>, k0: usize, b: usize) -> (r: Result<
    (),
    MatrixError,
>)
    requires
        old(w).wf(),
        old(w).rows() == old(w).cols(),
        k0 + b <= old(w).rows(),
    ensures
        final(w).wf(),
        final(w).rows() == old(w).rows(),
        final(w).cols() == old(w).cols(),
        r is Ok <==> pivots_ok(&diag_window(old(w), k0, b), b as int),
        r is Err ==> r->Err_0 == MatrixError::NotPositiveDefinite,
        forall|x: int, y: int|
            0 <= x < old(w).rows() && 0 <= y < old(w).cols() ==> #[trigger] final(w).at(x, y) == (
            if r is Ok && in_diag_block(x, y, k0 as int, b as int) {
                chol_entry(&diag_window(old(w), k0, b), x - k0, y - k0)
            } else {
                old(w).at(x, y)
            }),
{
    let ghost w0 = *w;
    let ghost win = diag_window(&w0, k0, b);
    proof {
        w.lemma_fits();
        assert(b * b <= w.rows() * w.cols()) by (nonlinear_arith)
            requires
                b <= w.rows(),
                b <= w.cols(),
        ;
    }
    let mut blk = {
        let view = known(SubMatrix(&*w, k0, k0, b, b));
        copy_of(&view)
    };
    let ghost blk0 = blk;
    let factored = cholesky_seq_inplace(&mut blk);
    proof {
        lemma_same_factor(&blk0, &win, b as int);
    }
    if factored.is_err() {
        return Err(MatrixError::NotPositiveDefinite);
    }
    let mut x: usize = 0;
    while x < b
        invariant
            w0 == *old(w),
            w0.wf(),
            w0.rows() == w0.cols(),
            k0 + b <= w0.rows(),
            win == diag_window(&w0, k0, b),
            blk.wf(),
            blk.rows() == b,
            blk.cols() == b,
            forall|p: int, q: int|
                0 <= q <= p < b ==> #[trigger] blk.at(p, q) == chol_entry(&win, p, q),
            x <= b,
            w.wf(),
            w.rows() == w0.rows(),
            w.cols() == w0.cols(),
            forall|p: int, q: int|
                0 <= p < w0.rows() && 0 <= q < w0.cols() ==> #[trigger] w.at(p, q) == (
                if in_diag_block(p, q, k0 as int, b as int) && p < k0 + x {
                    chol_entry(&win, p - k0, q - k0)
                } else {
                    w0.at(p, q)
                }),
        decreases b - x,
    {
        let mut y: usize = 0;
        while y <= x
            invariant
                w0.wf(),
                w0.rows() == w0.cols(),
                k0 + b <= w0.rows(),
                win == diag_window(&w0, k0, b),
                blk.wf(),
                blk.rows() == b,
                blk.cols() == b,
                forall|p: int, q: int|
                    0 <= q <= p < b ==> #[trigger] blk.at(p, q) == chol_entry(&win, p, q),
                x < b,
                y <= x + 1,
                w.wf(),
                w.rows() == w0.rows(),
                w.cols() == w0.cols(),
                forall|p: int, q: int|
                    0 <= p < w0.rows() && 0 <= q < w0.cols() ==> #[trigger] w.at(p, q) == (
                    if in_diag_block(p, q, k0 as int, b as int) && (p < k0 + x || (p == k0 + x
                        && q < k0 + y)) {
                        chol_entry(&win, p - k0, q - k0)
                    } else {
                        w0.at(p, q)
                    }),
            decreases x + 1 - y,
        {
            let v = known(blk.get(x, y));
            let done = w.set(k0 + x, k0 + y, v);
            assert(done is Ok);
            y += 1;
        }
        x += 1;
    }
    Ok(())
}

/// Whether `(x, y)` lies in the panel below the diagonal block of side `b`
/// at `k0` of a matrix of `n` rows.
pub open spec fn in_panel(x: int, y: int, k0: int, b: int, n: int) -> bool {
    k0 + b <= x < n && k0 <= y < k0 + b
}

/// The element `(x, y)` of the panel once it is solved: the element
/// `y - k0` of the solution of the lower triangular system whose matrix is
/// the diagonal block at `k0` and whose right-hand side is row `x` of the
/// panel.
pub open spec fn panel_entry<T: Scalar, M: BasicMatrix<T>>(w: &M, x: int, y: int, k0: int) -> T {
    fwd_entry(block_at(w, k0), strip_at(w, x, k0), y - k0)
}

/// Row `i` of the solved panel below the diagonal block of side `b` at
/// `k0`: the solution of the lower triangular system of the diagonal block
/// with row `i` of the panel as right-hand side. `SingularMatrix` where the
/// diagonal block has a zero on its diagonal.
pub fn solve_panel_row<T: Scalar, M: BasicMatrix<T>>(w: &M, i: usize, k0: usize, b: usize) -> (r:
    Result<Vec<T>, MatrixError>)
    requires
        w.wf(),
        i < w.rows(),
        k0 + b <= w.rows(),
        k0 + b <= w.cols(),
    ensures
        r is Ok <==> !has_zero_pivot(block_at(w, k0 as int), b as int),
        r is Err ==> r->Err_0 == MatrixError::SingularMatrix,
        r is Ok ==> (r->Ok_0)@.len() == b,
        r is Ok ==> forall|q: int|
            0 <= q < b ==> #[trigger] (r->Ok_0)@[q] == panel_entry(w, i as int, k0 + q, k0 as int),
{
    let diag = known(SubMatrix(w, k0, k0, b, b));
    let strip = known(SubMatrix(w, i, k0, 1, b));
    let rhs = known(row(&strip, 0));
    let ghost l1 = entries_of(&diag);
    let ghost b1 = elems_of(&rhs);
    let ghost l2 = block_at(w, k0 as int);
    let ghost b2 = strip_at(w, i as int, k0 as int);
    proof {
        assert forall|x: int, y: int| 0 <= y <= x < b implies #[trigger] l1(x, y) == l2(x, y) by {}
        assert forall|x: int| 0 <= x < b implies #[trigger] b1(x) == b2(x) by {}
        if has_zero_pivot(l1, b as int) {
            let z = choose|z: int| 0 <= z < b && #[trigger] l1(z, z) == T::zero_spec();
            assert(l2(z, z) == T::zero_spec());
        }
        if has_zero_pivot(l2, b as int) {
            let z = choose|z: int| 0 <= z < b && #[trigger] l2(z, z) == T::zero_spec();
            assert(l1(z, z) == T::zero_spec());
        }
    }
    let solved = solve_lower(&diag, &rhs);
    match solved {
        Ok(y) => {
            proof {
                assert forall|q: int| 0 <= q < b implies #[trigger] y@[q] == panel_entry(
                    w,
                    i as int,
                    k0 + q,
                    k0 as int,
                ) by {
                    lemma_fwd_agree(l1, b1, l2, b2, q, q);
                }
            }
            Ok(y)
        },
        Err(_) => Err(MatrixError::SingularMatrix),
    }
}

/// Solves the panel below the diagonal block of side `b` at `k0`: each row
/// of the panel is replaced by the solution of the lower triangular system
/// of the diagonal block with that row as right-hand side; nothing else
/// changes. With `SingularMatrix`, where the panel has rows and the
/// diagonal block has a zero on its diagonal, `w` is left as it was.
pub fn solve_panel<T: Scalar>(w: &mut Matrix<T>, k0: usize, b: usize) -> (r: Result<
    (),
    MatrixError,
>)
    requires
        old(w).wf(),
        old(w).rows() == old(w).cols(),
        k0 + b <= old(w).rows(),
    ensures
        final(w).wf(),
        final(w).rows() == old(w).rows(),
        final(w).cols() == old(w).cols(),
        r is Err <==> k0 + b < old(w).rows() && has_zero_pivot(
            block_at(old(w), k0 as int),
            b as int,
        ),
        r is Err ==> r->Err_0 == MatrixError::SingularMatrix,
        forall|x: int, y: int|
            0 <= x < old(w).rows() && 0 <= y < old(w).cols() ==> #[trigger] final(w).at(x, y) == (
            if r is Ok && in_panel(x, y, k0 as int, b as int, old(w).rows() as int) {
                panel_entry(old(w), x, y, k0 as int)
            } else {
                old(w).at(x, y)
            }),
{
    let ghost w0 = *w;
    let n = w.num_rows();
    let mut i: usize = k0 + b;
    while i < n
        invariant
            w0 == *old(w),
            w0.wf(),
            n == w0.rows(),
            n == w0.cols(),
            k0 + b <= i <= n,
            i > k0 + b ==> !has_zero_pivot(block_at(&w0, k0 as int), b as int),
            w.wf(),
            w.rows() == n,
            w.cols() == n,
            forall|x: int, y: int|
                0 <= x < n && 0 <= y < n ==> #[trigger] w.at(x, y) == (if in_panel(
                    x,
                    y,
                    k0 as int,
                    b as int,
                    i as int,
                ) {
                    panel_entry(&w0, x, y, k0 as int)
                } else {
                    w0.at(x, y)
                }),
        decreases n - i,
    {
        let ghost w1 = *w;
        proof {
            lemma_panel_untouched(&w1, &w0, i as int, k0 as int, b as int);
        }
        let y = match solve_panel_row(&*w, i, k0, b) {
            Ok(y) => y,
            Err(_) => {
                assert(i == k0 + b);
                assert forall|x: int, y: int| 0 <= x < n && 0 <= y < n implies #[trigger] w.at(
                    x,
                    y,
                ) == w0.at(x, y) by {}
                return Err(MatrixError::SingularMatrix);
            },
        };
        let mut kk: usize = 0;
        while kk < b
            invariant
                w0.wf(),
                n == w0.rows(),
                n == w0.cols(),
                k0 + b <= i < n,
                kk <= b,
                y@.len() == b,
                forall|q: int|
                    0 <= q < b ==> #[trigger] y@[q] == panel_entry(&w0, i as int, k0 + q, k0 as int),
                w.wf(),
                w.rows() == n,
                w.cols() == n,
                forall|x: int, y: int|
                    0 <= x < n && 0 <= y < n ==> #[trigger] w.at(x, y) == (if in_panel(
                        x,
                        y,
                        k0 as int,
                        b as int,
                        i as int,
                    ) || (x == i && k0 <= y < k0 + kk) {
                        panel_entry(&w0, x, y, k0 as int)
                    } else {
                        w0.at(x, y)
                    }),
            decreases b - kk,
        {
            let done = w.set(i, k0 + kk, y[kk]);
            assert(done is Ok);
            kk += 1;
        }
        i += 1;
    }
    Ok(())
}

/// While the rows of the panel above row `i` are being replaced, the
/// diagonal block and row `i` are as they were, so the system of row `i`
/// is the one of the matrix at the start.
pub proof fn lemma_panel_untouched<T: Scalar, M: BasicMatrix<T>>(
    now: &M,
    start: &M,
    i: int,
    k0: int,
    b: int,
)
    requires
        0 <= k0,
        0 <= b,
        k0 + b <= i < start.rows(),
        start.rows() == start.cols(),
        forall|x: int, y: int|
            0 <= x < start.rows() && 0 <= y < start.cols() && !in_panel(x, y, k0, b, i)
                ==> #[trigger] now.at(x, y) == start.at(x, y),
    ensures
        forall|q: int|
            0 <= q < b ==> #[trigger] panel_entry(now, i, k0 + q, k0) == panel_entry(
                start,
                i,
                k0 + q,
                k0,
            ),
        has_zero_pivot(block_at(now, k0), b) <==> has_zero_pivot(block_at(start, k0), b),
{
    let l1 = block_at(now, k0);
    let l2 = block_at(start, k0);
    let b1 = strip_at(now, i, k0);
    let b2 = strip_at(start, i, k0);
    assert forall|x: int, y: int| 0 <= y <= x < b implies #[trigger] l1(x, y) == l2(x, y) by {
        assert(now.at(k0 + x, k0 + y) == start.at(k0 + x, k0 + y));
    }
    assert forall|x: int| 0 <= x < b implies #[trigger] b1(x) == b2(x) by {
        assert(now.at(i, k0 + x) == start.at(i, k0 + x));
    }
    assert forall|q: int| 0 <= q < b implies #[trigger] panel_entry(now, i, k0 + q, k0)
        == panel_entry(start, i, k0 + q, k0) by {
        lemma_fwd_agree(l1, b1, l2, b2, q, q);
    }
    if has_zero_pivot(l1, b) {
        let z = choose|z: int| 0 <= z < b && #[trigger] l1(z, z) == T::zero_spec();
        assert(l2(z, z) == T::zero_spec());
    }
    if has_zero_pivot(l2, b) {
        let z = choose|z: int| 0 <= z < b && #[trigger] l2(z, z) == T::zero_spec();
        assert(l1(z, z) == T::zero_spec());
    }
}

/// What is left of `w[i, j]` after the products `w[j, p] * w[i, p]` for
/// `lo <= p < hi` have been taken from it, one after the other in the
/// order of `p`.
pub open spec fn schur_value<T: Ring, M: BasicMatrix<T>>(
    w: &M,
    i: int,
    j: int,
    lo: int,
    hi: int,
) -> T
    decreases hi - lo,
{
    if hi <= lo {
        w.at(i, j)
    } else {
        schur_value(w, i, j, lo, hi - 1).sub_spec(w.at(j, hi - 1).mul_spec(w.at(i, hi - 1)))
    }
}

/// One element of the trailing update: `w[i, j]` less the products of the
/// elements of the rows `j` and `i` in the columns `lo <= p < hi`.
pub fn schur_cell<T: Ring, M: BasicMatrix<T>>(w: &M, i: usize, j: usize, lo: usize, hi: usize) -> (s:
    T)
    requires
        w.wf(),
        i < w.rows(),
        j < w.rows(),
        j < w.cols(),
        lo <= hi <= w.cols(),
    ensures
        s == schur_value(w, i as int, j as int, lo as int, hi as int),
{
    let mut s = known(w.get(i, j));
    let mut p: usize = lo;
    while p < hi
        invariant
            w.wf(),
            i < w.rows(),
            j < w.rows(),
            j < w.cols(),
            lo <= p <= hi <= w.cols(),
            s == schur_value(w, i as int, j as int, lo as int, p as int),
        decreases hi - p,
    {
        let wj = known(w.get(j, p));
        let wi = known(w.get(i, p));
        s = s.sub(wj.mul(wi));
        p += 1;
    }
    s
}

/// One tile of the trailing update in storage of its own: the `rh` by `cw`
/// elements of `w` from `(i0, j0)` on, each less the products of the panel
/// columns `lo <= p < hi`. `w` is only read, so the tiles of one update
/// can be computed in any order, or side by side.
pub fn schur_tile<T: Ring, M: BasicMatrix<T>>(
    w: &M,
    lo: usize,
    hi: usize,
    i0: usize,
    j0: usize,
    rh: usize,
    cw: usize,
) -> (t: Matrix<T>)
    requires
        w.wf(),
        lo <= hi <= w.cols(),
        i0 + rh <= w.rows(),
        j0 + cw <= w.rows(),
        j0 + cw <= w.cols(),
        rh * cw <= usize::MAX,
    ensures
        t.wf(),
        t.rows() == rh,
        t.cols() == cw,
        forall|x: int, y: int|
            0 <= x < rh && 0 <= y < cw ==> #[trigger] t.at(x, y) == schur_value(
                w,
                i0 + x,
                j0 + y,
                lo as int,
                hi as int,
            ),
{
    let nr = w.num_rows();
    assert(i0 + rh <= nr && j0 + cw <= nr);
    let init = |x: usize, y: usize| -> (s: T)
        requires
            x < rh && y < cw,
        ensures
            s == schur_value(w, i0 + x, j0 + y, lo as int, hi as int),
        {
            schur_cell(w, i0 + x, j0 + y, lo, hi)
        };
    let t = Matrix::create(rh, cw, init);
    assert forall|x: int, y: int| 0 <= x < rh && 0 <= y < cw implies #[trigger] t.at(x, y)
        == schur_value(w, i0 + x, j0 + y, lo as int, hi as int) by {
        let xu = x as usize;
        let yu = y as usize;
        assert(t.at(xu as int, yu as int) == schur_value(
            w,
            i0 + xu,
            j0 + yu,
            lo as int,
            hi as int,
        ));
    }
    t
}

/// Copies into the window of `c` at `(i0, j0)` those elements of the tile
/// `p` that fall on or below the diagonal of `c`; the rest of `c` stays as
/// it is. `IndexOutOfBounds`, with `c` unchanged, where the tile does not
/// lie inside `c`.
pub fn store_tile_lower<T: Copy, M: BasicMatrixMut<T>, P: BasicMatrix<T>>(
    c: &mut M,
    p: &P,
    i0: usize,
    j0: usize,
) -> (r: Result<(), MatrixError>)
    requires
        old(c).wf(),
        p.wf(),
    ensures
        final(c).wf(),
        final(c).rows() == old(c).rows(),
        final(c).cols() == old(c).cols(),
        r is Ok <==> i0 + p.rows() <= old(c).rows() && j0 + p.cols() <= old(c).cols(),
        r is Err ==> r->Err_0 == MatrixError::IndexOutOfBounds,
        forall|x: int, y: int|
            0 <= x < old(c).rows() && 0 <= y < old(c).cols() ==> #[trigger] final(c).at(x, y) == (
            if r is Ok && y <= x && in_tile(
                x,
                y,
                i0 as int,
                j0 as int,
                p.rows() as int,
                p.cols() as int,
            ) {
                p.at(x - i0, y - j0)
            } else {
                old(c).at(x, y)
            }),
{
    let rh = p.num_rows();
    let cw = p.num_cols();
    let ghost before = *c;
    let ghost after = *final(c);
    let mut view = match SubMatrixMut(c, i0, j0, rh, cw) {
        Ok(v) => v,
        Err(e) => {
            return Err(e);
        },
    };
    let mut i: usize = 0;
    while i < rh
        invariant
            p.wf(),
            before.wf(),
            rh == p.rows(),
            cw == p.cols(),
            i <= rh,
            view.wf(),
            view.i == i0,
            view.j == j0,
            view.rows == rh,
            view.cols == cw,
            *final(view.base) == after,
            view.base.rows() == before.rows(),
            view.base.cols() == before.cols(),
            forall|x: int, y: int|
                0 <= x < before.rows() && 0 <= y < before.cols() ==> #[trigger] view.base.at(x, y)
                    == (if y <= x && in_tile(x, y, i0 as int, j0 as int, i as int, cw as int) {
                    p.at(x - i0, y - j0)
                } else {
                    before.at(x, y)
                }),
        decreases rh - i,
    {
        let mut j: usize = 0;
        while j < cw
            invariant
                p.wf(),
                before.wf(),
                rh == p.rows(),
                cw == p.cols(),
                i < rh,
                j <= cw,
                view.wf(),
                view.i == i0,
                view.j == j0,
                view.rows == rh,
                view.cols == cw,
                *final(view.base) == after,
                view.base.rows() == before.rows(),
                view.base.cols() == before.cols(),
                forall|x: int, y: int|
                    0 <= x < before.rows() && 0 <= y < before.cols() ==> #[trigger] view.base.at(
                        x,
                        y,
                    ) == (if y <= x && (in_tile(x, y, i0 as int, j0 as int, i as int, cw as int)
                        || (x == i0 + i && j0 <= y < j0 + j)) {
                        p.at(x - i0, y - j0)
                    } else {
                        before.at(x, y)
                    }),
            decreases cw - j,
        {
            if j0 + j <= i0 + i {
                let v = known(p.get(i, j));
                let done = view.set(i, j, v);
                assert(done is Ok);
            }
            j += 1;
        }
        i += 1;
    }
    Ok(())
}

/// Whether `(x, y)` lies in the lower triangle of the trailing block that
/// starts at `t0`.
pub open spec fn in_trailing(x: int, y: int, t0: int) -> bool {
    t0 <= y <= x
}

/// The trailing update of one step: every element on or below the diagonal
/// of the block that starts at `t0` loses the products of the panel
/// columns `k0 <= p < t0`; nothing else changes. The update goes tile by
/// tile, the tiles of side `bs` at most.
pub fn schur_update<T: Ring>(w: &mut Matrix<T>, k0: usize, t0: usize, bs: usize)
    requires
        old(w).wf(),
        old(w).rows() == old(w).cols(),
        k0 <= t0 <= old(w).rows(),
        bs >= 1,
    ensures
        final(w).wf(),
        final(w).rows() == old(w).rows(),
        final(w).cols() == old(w).cols(),
        forall|x: int, y: int|
            0 <= x < old(w).rows() && 0 <= y < old(w).cols() ==> #[trigger] final(w).at(x, y) == (
            if in_trailing(x, y, t0 as int) {
                schur_value(old(w), x, y, k0 as int, t0 as int)
            } else {
                old(w).at(x, y)
            }),
{
    let ghost w0 = *w;
    let n = w.num_rows();
    let mut i0: usize = t0;
    while i0 < n
        invariant
            w0 == *old(w),
            w0.wf(),
            n == w0.rows(),
            n == w0.cols(),
            k0 <= t0 <= i0 <= n,
            bs >= 1,
            w.wf(),
            w.rows() == n,
            w.cols() == n,
            forall|x: int, y: int|
                0 <= x < n && 0 <= y < n ==> #[trigger] w.at(x, y) == (if in_trailing(
                    x,
                    y,
                    t0 as int,
                ) && x < i0 {
                    schur_value(&w0, x, y, k0 as int, t0 as int)
                } else {
                    w0.at(x, y)
                }),
        decreases n - i0,
    {
        let rh = tile_side(n, i0, bs);
        let mut j0: usize = t0;
        while j0 < i0 + rh
            invariant
                w0.wf(),
                n == w0.rows(),
                n == w0.cols(),
                k0 <= t0 <= i0,
                i0 + rh <= n,
                rh >= 1,
                t0 <= j0 <= i0 + rh,
                bs >= 1,
                w.wf(),
                w.rows() == n,
                w.cols() == n,
                forall|x: int, y: int|
                    0 <= x < n && 0 <= y < n ==> #[trigger] w.at(x, y) == (if in_trailing(
                        x,
                        y,
                        t0 as int,
                    ) && (x < i0 || (x < i0 + rh && y < j0)) {
                        schur_value(&w0, x, y, k0 as int, t0 as int)
                    } else {
                        w0.at(x, y)
                    }),
            decreases i0 + rh - j0,
        {
            let cw = tile_side(i0 + rh, j0, bs);
            proof {
                w.lemma_fits();
                assert(rh * cw <= n * n) by (nonlinear_arith)
                    requires
                        rh <= n,
                        cw <= n,
                ;
            }
            let ghost w1 = *w;
            let t = schur_tile(&*w, k0, t0, i0, j0, rh, cw);
            let done = store_tile_lower(w, &t, i0, j0);
            proof {
                assert forall|x: int, y: int| 0 <= x < n && 0 <= y < n implies #[trigger] w.at(
                    x,
                    y,
                ) == (if in_trailing(x, y, t0 as int) && (x < i0 || (x < i0 + rh && y < j0 + cw)) {
                    schur_value(&w0, x, y, k0 as int, t0 as int)
                } else {
                    w0.at(x, y)
                }) by {
                    if y <= x && in_tile(x, y, i0 as int, j0 as int, rh as int, cw as int) {
                        assert(w.at(x, y) == t.at(x - i0, y - j0));
                        lemma_schur_same(&w1, &w0, x, y, k0 as int, t0 as int, t0 as int);
                    } else {
                        assert(w.at(x, y) == w1.at(x, y));
                    }
                }
            }
            j0 += cw;
        }
        i0 += rh;
    }
}

/// The trailing update of an element reads, besides the element itself,
/// only panel columns: two matrices that agree there give the same value.
pub proof fn lemma_schur_same<T: Ring, M: BasicMatrix<T>>(
    now: &M,
    start: &M,
    x: int,
    y: int,
    lo: int,
    hi: int,
    t0: int,
)
    requires
        lo <= hi <= t0,
        now.at(x, y) == start.at(x, y),
        forall|p: int| lo <= p < t0 ==> #[trigger] now.at(x, p) == start.at(x, p),
        forall|p: int| lo <= p < t0 ==> #[trigger] now.at(y, p) == start.at(y, p),
    ensures
        schur_value(now, x, y, lo, hi) == schur_value(start, x, y, lo, hi),
    decreases hi - lo,
{
    if hi > lo {
        lemma_schur_same(now, start, x, y, lo, hi - 1, t0);
    }
}

/// What the element `(x, y)` on or below the diagonal holds when the
/// columns before `k0` are done: the factor in those columns, and in the
/// others the element of `a` less the products of the columns done.
pub open spec fn step_state<T: Scalar, A: BasicMatrix<T>>(a: &A, x: int, y: int, k0: int) -> T {
    if y < k0 {
        chol_entry(a, x, y)
    } else {
        chol_residual(a, x, y, k0)
    }
}

/// Whether the lower triangle of `w` is in the state of `step_state`.
pub open spec fn at_step<T: Scalar, A: BasicMatrix<T>, M: BasicMatrix<T>>(
    w: &M,
    a: &A,
    k0: int,
) -> bool {
    &&& w.wf()
    &&& w.rows() == a.rows()
    &&& w.cols() == a.rows()
    &&& forall|x: int, y: int|
        0 <= y <= x < a.rows() ==> #[trigger] w.at(x, y) == step_state(a, x, y, k0)
}

/// Whether `l` is the Cholesky factor of the square matrix `a`: the factor
/// on and below the diagonal, zero above it.
pub open spec fn is_factor_of<T: Scalar, A: BasicMatrix<T>, M: BasicMatrix<T>>(
    l: &M,
    a: &A,
) -> bool {
    &&& l.wf()
    &&& l.rows() == a.rows()
    &&& l.cols() == a.rows()
    &&& forall|x: int, y: int|
        0 <= x < a.rows() && 0 <= y < a.rows() ==> #[trigger] l.at(x, y) == (if y <= x {
            chol_entry(a, x, y)
        } else {
            T::zero_spec()
        })
}

/// The factor of what is left of `a` after `k0` columns is the rest of the
/// factor of `a`: where the lower triangle of `s` holds the residuals of
/// `a` from `(k0, k0)` on, the residuals and the factor of `s` are those
/// of `a`, moved by `k0`.
pub proof fn lemma_shifted_residual<T: Scalar, S: BasicMatrix<T>, A: BasicMatrix<T>>(
    s: &S,
    a: &A,
    k0: int,
    size: int,
    x: int,
    y: int,
    m: int,
)
    requires
        0 <= k0,
        forall|p: int, q: int|
            0 <= q <= p < size ==> #[trigger] s.at(p, q) == chol_residual(a, k0 + p, k0 + q, k0),
        0 <= m <= y <= x < size,
    ensures
        chol_residual(s, x, y, m) == chol_residual(a, k0 + x, k0 + y, k0 + m),
        m == y ==> chol_entry(s, x, y) == chol_entry(a, k0 + x, k0 + y),
    decreases y, m, x - y,
{
    if m > 0 {
        lemma_shifted_residual(s, a, k0, size, x, y, m - 1);
        lemma_shifted_residual(s, a, k0, size, y, m - 1, m - 1);
        lemma_shifted_residual(s, a, k0, size, x, m - 1, m - 1);
    }
    if m == y {
        if x != y {
            lemma_shifted_residual(s, a, k0, size, y, y, y);
            assert(chol_entry(s, x, y) == chol_residual(s, x, y, y).div_spec(chol_entry(s, y, y)));
            assert(chol_entry(a, k0 + x, k0 + y) == chol_residual(
                a,
                k0 + x,
                k0 + y,
                k0 + y,
            ).div_spec(chol_entry(a, k0 + y, k0 + y)));
        } else {
            assert(chol_entry(s, y, y) == chol_residual(s, y, y, y).sqrt_spec());
            assert(chol_entry(a, k0 + y, k0 + y) == chol_residual(
                a,
                k0 + y,
                k0 + y,
                k0 + y,
            ).sqrt_spec());
        }
    }
}

/// A row of the solved panel is a row of the factor: where `l` holds the
/// factor of `a` in the diagonal block at `k0` and `b` holds the residuals
/// of row `i` of `a` after `k0` columns, the forward solution is the
/// factor's row `i` from column `k0` on.
pub proof fn lemma_panel_factor<T: Scalar, A: BasicMatrix<T>>(
    a: &A,
    l: spec_fn(int, int) -> T,
    b: spec_fn(int) -> T,
    i: int,
    k0: int,
    kk: int,
    m: int,
)
    requires
        0 <= k0,
        0 <= m <= kk,
        k0 + kk < i,
        forall|p: int, q: int| 0 <= q <= p <= kk ==> #[trigger] l(p, q) == chol_entry(
            a,
            k0 + p,
            k0 + q,
        ),
        forall|q: int| 0 <= q <= kk ==> #[trigger] b(q) == chol_residual(a, i, k0 + q, k0),
    ensures
        fwd_residual(l, b, kk, m) == chol_residual(a, i, k0 + kk, k0 + m),
        m == kk ==> fwd_entry(l, b, kk) == chol_entry(a, i, k0 + kk),
    decreases kk, m,
{
    if m > 0 {
        lemma_panel_factor(a, l, b, i, k0, kk, m - 1);
        lemma_panel_factor(a, l, b, i, k0, m - 1, m - 1);
    }
    if m == kk {
        assert(fwd_entry(l, b, kk) == fwd_residual(l, b, kk, kk).div_spec(l(kk, kk)));
        assert(chol_entry(a, i, k0 + kk) == chol_residual(a, i, k0 + kk, k0 + kk).div_spec(
            chol_entry(a, k0 + kk, k0 + kk),
        ));
    }
}

/// The trailing update turns the residuals after `k0` columns into the
/// residuals after `k0 + m` columns, where the panel columns of `w` hold
/// the factor of `a`.
pub proof fn lemma_schur_residual<T: Scalar, A: BasicMatrix<T>, M: BasicMatrix<T>>(
    a: &A,
    w: &M,
    x: int,
    y: int,
    k0: int,
    m: int,
)
    requires
        0 <= k0,
        0 <= m,
        w.at(x, y) == chol_residual(a, x, y, k0),
        forall|p: int| k0 <= p < k0 + m ==> #[trigger] w.at(x, p) == chol_entry(a, x, p),
        forall|p: int| k0 <= p < k0 + m ==> #[trigger] w.at(y, p) == chol_entry(a, y, p),
    ensures
        schur_value(w, x, y, k0, k0 + m) == chol_residual(a, x, y, k0 + m),
    decreases m,
{
    if m > 0 {
        lemma_schur_residual(a, w, x, y, k0, m - 1);
    }
}

/// The diagonal block of a matrix at step `k0` has the pivots and the
/// factor of `a` from `k0` on.
pub proof fn lemma_block_factor<T: Scalar, A: BasicMatrix<T>, M: BasicMatrix<T>>(
    a: &A,
    w: &M,
    k0: usize,
    b: usize,
)
    requires
        at_step(w, a, k0 as int),
        k0 + b <= a.rows(),
    ensures
        forall|p: int, q: int|
            0 <= q <= p < b ==> #[trigger] chol_entry(&diag_window(w, k0, b), p, q) == chol_entry(
                a,
                k0 + p,
                k0 + q,
            ),
        forall|kk: int|
            0 <= kk < b ==> #[trigger] pivot_ok(&diag_window(w, k0, b), kk) == pivot_ok(
                a,
                k0 + kk,
            ),
{
    let win = diag_window(w, k0, b);
    assert forall|p: int, q: int| 0 <= q <= p < b implies #[trigger] win.at(p, q)
        == chol_residual(a, k0 + p, k0 + q, k0 as int) by {
        assert(w.at(k0 + p, k0 + q) == step_state(a, k0 + p, k0 + q, k0 as int));
    }
    assert forall|p: int, q: int| 0 <= q <= p < b implies #[trigger] chol_entry(&win, p, q)
        == chol_entry(a, k0 + p, k0 + q) by {
        lemma_shifted_residual(&win, a, k0 as int, b as int, p, q, q);
    }
    assert forall|kk: int| 0 <= kk < b implies #[trigger] pivot_ok(&win, kk) == pivot_ok(
        a,
        k0 + kk,
    ) by {
        lemma_shifted_residual(&win, a, k0 as int, b as int, kk, kk, kk);
    }
}

/// One step carries the state from `k0` to `k0 + b`: `w1` is the matrix at
/// step `k0`, `w2` what `factor_block` made of it, `w3` what `solve_panel`
/// made of `w2`, and `w4` what `schur_update` made of `w3`.
pub proof fn lemma_step<T: Scalar, A: BasicMatrix<T>, M: BasicMatrix<T>>(
    a: &A,
    w1: &M,
    w2: &M,
    w3: &M,
    w4: &M,
    k0: usize,
    b: usize,
)
    requires
        at_step(w1, a, k0 as int),
        k0 + b <= a.rows(),
        pivots_ok(a, k0 + b),
        w4.wf(),
        w4.rows() == a.rows(),
        w4.cols() == a.rows(),
        forall|x: int, y: int|
            0 <= y <= x < a.rows() ==> #[trigger] w2.at(x, y) == (if in_diag_block(
                x,
                y,
                k0 as int,
                b as int,
            ) {
                chol_entry(&diag_window(w1, k0, b), x - k0, y - k0)
            } else {
                w1.at(x, y)
            }),
        forall|x: int, y: int|
            0 <= y <= x < a.rows() ==> #[trigger] w3.at(x, y) == (if in_panel(
                x,
                y,
                k0 as int,
                b as int,
                a.rows() as int,
            ) {
                panel_entry(w2, x, y, k0 as int)
            } else {
                w2.at(x, y)
            }),
        forall|x: int, y: int|
            0 <= y <= x < a.rows() ==> #[trigger] w4.at(x, y) == (if in_trailing(x, y, k0 + b) {
                schur_value(w3, x, y, k0 as int, k0 + b)
            } else {
                w3.at(x, y)
            }),
    ensures
        at_step(w4, a, k0 + b),
{
    let n = a.rows() as int;
    let t0 = k0 + b;
    lemma_block_factor(a, w1, k0, b);
    assert forall|x: int, y: int| 0 <= y <= x < n && y < t0 implies #[trigger] w3.at(x, y)
        == chol_entry(a, x, y) by {
        assert(w1.at(x, y) == step_state(a, x, y, k0 as int));
        if y < k0 {
            assert(w2.at(x, y) == w1.at(x, y));
        } else if x < t0 {
            assert(w2.at(x, y) == chol_entry(&diag_window(w1, k0, b), x - k0, y - k0));
        } else {
            let l = block_at(w2, k0 as int);
            let bf = strip_at(w2, x, k0 as int);
            let kk = y - k0;
            assert forall|p: int, q: int| 0 <= q <= p <= kk implies #[trigger] l(p, q)
                == chol_entry(a, k0 + p, k0 + q) by {
                assert(w2.at(k0 + p, k0 + q) == chol_entry(&diag_window(w1, k0, b), p, q));
            }
            assert forall|q: int| 0 <= q <= kk implies #[trigger] bf(q) == chol_residual(
                a,
                x,
                k0 + q,
                k0 as int,
            ) by {
                assert(w2.at(x, k0 + q) == w1.at(x, k0 + q));
                assert(w1.at(x, k0 + q) == step_state(a, x, k0 + q, k0 as int));
            }
            lemma_panel_factor(a, l, bf, x, k0 as int, kk, kk);
        }
    }
    assert forall|x: int, y: int| 0 <= y <= x < n implies #[trigger] w4.at(x, y) == step_state(
        a,
        x,
        y,
        t0,
    ) by {
        if y < t0 {
            assert(w4.at(x, y) == w3.at(x, y));
        } else {
            assert(w3.at(x, y) == w2.at(x, y));
            assert(w2.at(x, y) == w1.at(x, y));
            assert(w1.at(x, y) == step_state(a, x, y, k0 as int));
            assert forall|p: int| k0 <= p < k0 + b implies #[trigger] w3.at(x, p) == chol_entry(
                a,
                x,
                p,
            ) by {}
            assert forall|p: int| k0 <= p < k0 + b implies #[trigger] w3.at(y, p) == chol_entry(
                a,
                y,
                p,
            ) by {}
            lemma_schur_residual(a, w3, x, y, k0 as int, b as int);
        }
    }
}

/// The factor that the factorisation in place leaves in the lower triangle
/// is the factor that the factorisation in blocks returns.
pub proof fn lemma_factors_agree<
    T: Scalar,
    A: BasicMatrix<T>,
    M: BasicMatrix<T>,
    L: BasicMatrix<T>,
>(in_place: &M, blocked: &L, a: &A)
    requires
        a.rows() == a.cols(),
        factored_upto(in_place, a, a.rows() as int),
        is_factor_of(blocked, a),
    ensures
        forall|x: int, y: int|
            0 <= y <= x < a.rows() ==> #[trigger] in_place.at(x, y) == blocked.at(x, y),
{
    assert forall|x: int, y: int| 0 <= y <= x < a.rows() implies #[trigger] in_place.at(x, y)
        == blocked.at(x, y) by {
        assert(in_place.at(x, y) == crate::matrix::cholesky::chol_state(
            a,
            x,
            y,
            a.rows() as int,
            0,
        ));
    }
}

/// The Cholesky factor of the square matrix `a` in storage of its own,
/// computed in blocks of side `bs`: the factor on and below the diagonal,
/// zero above it. `a` is not changed.
///
/// The result is the factor that [`cholesky_seq_inplace`] writes;
/// `NotPositiveDefinite` where a pivot has no positive radicand.
pub fn cholesky_blocked_by<T: Scalar, A: BasicMatrix<T>>(a: &A, bs: usize) -> (r: Result<
    Matrix<T>,
    MatrixError,
>)
    requires
        a.wf(),
        a.rows() == a.cols(),
        a.rows() * a.cols() <= usize::MAX,
        bs >= 1,
    ensures
        r is Ok <==> pivots_ok(a, a.rows() as int),
        r is Ok ==> is_factor_of(&r->Ok_0, a),
        r is Err ==> r->Err_0 == MatrixError::NotPositiveDefinite,
{
    factor_in_steps(a, bs, 0)
}

/// The factorisation in steps of `bs` columns. With `parts` zero the
/// trailing update of each step goes tile by tile, else in at most `parts`
/// bands of rows; the result is the same.
pub(crate) fn factor_in_steps<T: Scalar, A: BasicMatrix<T>>(a: &A, bs: usize, parts: usize) -> (r:
    Result<Matrix<T>, MatrixError>)
    requires
        a.wf(),
        a.rows() == a.cols(),
        a.rows() * a.cols() <= usize::MAX,
        bs >= 1,
    ensures
        r is Ok <==> pivots_ok(a, a.rows() as int),
        r is Ok ==> is_factor_of(&r->Ok_0, a),
        r is Err ==> r->Err_0 == MatrixError::NotPositiveDefinite,
{
    let n = a.num_rows();
    let mut w = copy_of(a);
    let mut k0: usize = 0;
    while k0 < n
        invariant
            a.wf(),
            n == a.rows(),
            n == a.cols(),
            bs >= 1,
            k0 <= n,
            pivots_ok(a, k0 as int),
            at_step(&w, a, k0 as int),
        decreases n - k0,
    {
        let b = tile_side(n, k0, bs);
        let ghost w1 = w;
        let factored = factor_block(&mut w, k0, b);
        proof {
            lemma_block_factor(a, &w1, k0, b);
            if pivots_ok(&diag_window(&w1, k0, b), b as int) {
                assert forall|k: int| 0 <= k < k0 + b implies pivot_ok(a, k) by {
                    if k >= k0 {
                        assert(pivot_ok(&diag_window(&w1, k0, b), k - k0));
                    }
                }
            }
        }
        if factored.is_err() {
            return Err(MatrixError::NotPositiveDefinite);
        }
        let ghost w2 = w;
        proof {
            if has_zero_pivot(block_at(&w2, k0 as int), b as int) {
                let z = choose|z: int|
                    0 <= z < b && #[trigger] block_at(&w2, k0 as int)(z, z) == T::zero_spec();
                assert(w2.at(k0 + z, k0 + z) == chol_entry(&diag_window(&w1, k0, b), z, z));
                assert(pivot_ok(a, k0 + z));
                T::lemma_positive_sqrt(chol_residual(a, k0 + z, k0 + z, k0 + z));
            }
        }
        if let Err(e) = solve_panel(&mut w, k0, b) {
            return Err(e);
        }
        let ghost w3 = w;
        if parts == 0 {
            schur_update(&mut w, k0, k0 + b, bs);
        } else {
            schur_update_banded(&mut w, k0, k0 + b, parts);
        }
        proof {
            lemma_step(a, &w1, &w2, &w3, &w, k0, b);
        }
        k0 += b;
    }
    let l = lower_copy(&w);
    proof {
        assert forall|x: int, y: int| 0 <= x < n && 0 <= y < n implies #[trigger] l.at(x, y) == (
        if y <= x {
            chol_entry(a, x, y)
        } else {
            T::zero_spec()
        }) by {
            if y <= x {
                assert(w.at(x, y) == step_state(a, x, y, n as int));
            }
        }
    }
    Ok(l)
}

/// A copy of the lower triangle of the square matrix `w` in storage of its
/// own, with zero above the diagonal.
pub fn lower_copy<T: Ring, M: BasicMatrix<T>>(w: &M) -> (l: Matrix<T>)
    requires
        w.wf(),
        w.rows() == w.cols(),
        w.rows() * w.cols() <= usize::MAX,
    ensures
        l.wf(),
        l.rows() == w.rows(),
        l.cols() == w.cols(),
        forall|x: int, y: int|
            0 <= x < w.rows() && 0 <= y < w.cols() ==> #[trigger] l.at(x, y) == (if y <= x {
                w.at(x, y)
            } else {
                T::zero_spec()
            }),
{
    let n = w.num_rows();
    let init = |i: usize, j: usize| -> (x: T)
        requires
            i < n && j < n,
        ensures
            x == (if j <= i {
                w.at(i as int, j as int)
            } else {
                T::zero_spec()
            }),
        {
            if j <= i {
                known(w.get(i, j))
            } else {
                T::zero()
            }
        };
    let l = Matrix::create(n, n, init);
    assert forall|x: int, y: int| 0 <= x < n && 0 <= y < n implies #[trigger] l.at(x, y) == (if y
        <= x {
        w.at(x, y)
    } else {
        T::zero_spec()
    }) by {
        let xu = x as usize;
        let yu = y as usize;
        assert(l.at(xu as int, yu as int) == (if yu <= xu {
            w.at(xu as int, yu as int)
        } else {
            T::zero_spec()
        }));
    }
    l
}

/// The Cholesky factor of the square matrix `a` in storage of its own,
/// computed in blocks of side [`BLOCK_SIZE`]; see [`cholesky_blocked_by`].
pub fn cholesky_blocked<T: Scalar, A: BasicMatrix<T>>(a: &A) -> (r: Result<Matrix<T>, MatrixError>)
    requires
        a.wf(),
        a.rows() == a.cols(),
        a.rows() * a.cols() <= usize::MAX,
    ensures
        r is Ok <==> pivots_ok(a, a.rows() as int),
        r is Ok ==> is_factor_of(&r->Ok_0, a),
        r is Err ==> r->Err_0 == MatrixError::NotPositiveDefinite,
{
    cholesky_blocked_by(a, BLOCK_SIZE)
}

} // verus!
