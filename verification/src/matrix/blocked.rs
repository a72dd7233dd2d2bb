//! The matrix product computed tile by tile.
//!
//! The operands and the result are cut into square tiles of a fixed side;
//! the tiles on the right and lower edges are as much smaller as the
//! dimensions require. Each tile of the result is the sum, over the tiles
//! along the shared dimension, of the products of a tile of the left
//! operand and a tile of the right one.
use vstd::prelude::*;
use crate::matrix::algorithms::{inner, is_product, known, mat_mul, product_entry, zeros};
use crate::matrix::{
    BasicMatrix, BasicMatrixMut, Matrix, MatrixError, Ring, SubMatrix, SubMatrixMut,
};

verus! {

/// The side of a tile where the caller names none.
pub const BLOCK_SIZE: usize = 64;

/// A sum over `lo <= k < hi` is the sum over `lo <= k < mid` plus the sum
/// over `mid <= k < hi`.
pub proof fn lemma_inner_split<T: Ring, A: BasicMatrix<T>, B: BasicMatrix<T>>(
    a: &A,
    b: &B,
    i: int,
    j: int,
    lo: int,
    mid: int,
    hi: int,
)
    requires
        lo <= mid <= hi,
    ensures
        inner(a, b, i, j, lo, hi) == inner(a, b, i, j, lo, mid).add_spec(
            inner(a, b, i, j, mid, hi),
        ),
    decreases hi - mid,
{
    if hi == mid {
        T::lemma_add_zero(inner(a, b, i, j, lo, mid));
    } else {
        lemma_inner_split(a, b, i, j, lo, mid, hi - 1);
        let t = a.at(i, hi - 1).mul_spec(b.at(hi - 1, j));
        T::lemma_add_assoc(inner(a, b, i, j, lo, mid), inner(a, b, i, j, mid, hi - 1), t);
        if hi - 1 == lo {
            assert(mid == lo);
        }
    }
}

/// A sum over two windows that meet along the shared dimension is the sum
/// over the matching stretch of the bases.
pub proof fn lemma_inner_window<T: Ring, A: BasicMatrix<T>, B: BasicMatrix<T>>(
    sa: &SubMatrix<A>,
    sb: &SubMatrix<B>,
    i: int,
    j: int,
    n: int,
)
    requires
        sa.j == sb.i,
    ensures
        inner(sa, sb, i, j, 0, n) == inner(
            sa.base,
            sb.base,
            i + sa.i,
            j + sb.j,
            sa.j as int,
            sa.j + n,
        ),
    decreases n,
{
    if n > 0 {
        lemma_inner_window(sa, sb, i, j, n - 1);
    }
}

/// Whether `(x, y)` lies in the window of `rh` by `cw` elements at `(i0, j0)`.
pub open spec fn in_tile(x: int, y: int, i0: int, j0: int, rh: int, cw: int) -> bool {
    i0 <= x < i0 + rh && j0 <= y < j0 + cw
}

/// Adds `p` element by element to the window of `c` whose top left corner
/// is `(i0, j0)`; the rest of `c` stays as it is.
pub fn add_tile<T: Ring, M: BasicMatrixMut<T>, P: BasicMatrix<T>>(
    c: &mut M,
    p: &P,
    i0: usize,
    j0: usize,
) -> (r: Result<(), MatrixError>)
    requires
        old(c).wf(),
        p.wf(),
    ensures
        final(c).wf(),
        final(c).rows() == old(c).rows(),
        final(c).cols() == old(c).cols(),
        r is Ok <==> i0 + p.rows() <= old(c).rows() && j0 + p.cols() <= old(c).cols(),
        r is Err ==> r->Err_0 == MatrixError::IndexOutOfBounds,
        forall|x: int, y: int|
            0 <= x < old(c).rows() && 0 <= y < old(c).cols() ==> #[trigger] final(c).at(x, y) == (
            if r is Ok && in_tile(x, y, i0 as int, j0 as int, p.rows() as int, p.cols() as int) {
                old(c).at(x, y).add_spec(p.at(x - i0, y - j0))
            } else {
                old(c).at(x, y)
            }),
{
    let rh = p.num_rows();
    let cw = p.num_cols();
    let ghost before = *c;
    let ghost after = *final(c);
    let mut view = match SubMatrixMut(c, i0, j0, rh, cw) {
        Ok(v) => v,
        Err(e) => {
            return Err(e);
        },
    };
    let mut i: usize = 0;
    while i < rh
        invariant
            p.wf(),
            before.wf(),
            rh == p.rows(),
            cw == p.cols(),
            i <= rh,
            view.wf(),
            view.i == i0,
            view.j == j0,
            view.rows == rh,
            view.cols == cw,
            *final(view.base) == after,
            view.base.rows() == before.rows(),
            view.base.cols() == before.cols(),
            forall|x: int, y: int|
                0 <= x < before.rows() && 0 <= y < before.cols() ==> #[trigger] view.base.at(x, y)
                    == (if in_tile(x, y, i0 as int, j0 as int, i as int, cw as int) {
                    before.at(x, y).add_spec(p.at(x - i0, y - j0))
                } else {
                    before.at(x, y)
                }),
        decreases rh - i,
    {
        let mut j: usize = 0;
        while j < cw
            invariant
                p.wf(),
                before.wf(),
                rh == p.rows(),
                cw == p.cols(),
                i < rh,
                j <= cw,
                view.wf(),
                view.i == i0,
                view.j == j0,
                view.rows == rh,
                view.cols == cw,
                *final(view.base) == after,
                view.base.rows() == before.rows(),
                view.base.cols() == before.cols(),
                forall|x: int, y: int|
                    0 <= x < before.rows() && 0 <= y < before.cols() ==> #[trigger] view.base.at(
                        x,
                        y,
                    ) == (if in_tile(x, y, i0 as int, j0 as int, i as int, cw as int) || (x == i0
                        + i && j0 <= y < j0 + j) {
                        before.at(x, y).add_spec(p.at(x - i0, y - j0))
                    } else {
                        before.at(x, y)
                    }),
            decreases cw - j,
        {
            let cur = known(view.get(i, j));
            let inc = known(p.get(i, j));
            let done = view.set(i, j, cur.add(inc));
            assert(done is Ok);
            j += 1;
        }
        i += 1;
    }
    Ok(())
}

/// Copies `p` element by element into the window of `c` whose top left
/// corner is `(i0, j0)`; the rest of `c` stays as it is.
/// `IndexOutOfBounds`, with `c` unchanged, where `p` does not fit there.
pub fn store_tile<T: Copy, M: BasicMatrixMut<T>, P: BasicMatrix<T>>(
    c: &mut M,
    p: &P,
    i0: usize,
    j0: usize,
) -> (r: Result<(), MatrixError>)
    requires
        old(c).wf(),
        p.wf(),
    ensures
        final(c).wf(),
        final(c).rows() == old(c).rows(),
        final(c).cols() == old(c).cols(),
        r is Ok <==> i0 + p.rows() <= old(c).rows() && j0 + p.cols() <= old(c).cols(),
        r is Err ==> r->Err_0 == MatrixError::IndexOutOfBounds,
        forall|x: int, y: int|
            0 <= x < old(c).rows() && 0 <= y < old(c).cols() ==> #[trigger] final(c).at(x, y) == (
            if r is Ok && in_tile(x, y, i0 as int, j0 as int, p.rows() as int, p.cols() as int) {
                p.at(x - i0, y - j0)
            } else {
                old(c).at(x, y)
            }),
{
    let rh = p.num_rows();
    let cw = p.num_cols();
    let ghost before = *c;
    let ghost after = *final(c);
    let mut view = match SubMatrixMut(c, i0, j0, rh, cw) {
        Ok(v) => v,
        Err(e) => {
            return Err(e);
        },
    };
    let mut i: usize = 0;
    while i < rh
        invariant
            p.wf(),
            before.wf(),
            rh == p.rows(),
            cw == p.cols(),
            i <= rh,
            view.wf(),
            view.i == i0,
            view.j == j0,
            view.rows == rh,
            view.cols == cw,
            *final(view.base) == after,
            view.base.rows() == before.rows(),
            view.base.cols() == before.cols(),
            forall|x: int, y: int|
                0 <= x < before.rows() && 0 <= y < before.cols() ==> #[trigger] view.base.at(x, y)
                    == (if in_tile(x, y, i0 as int, j0 as int, i as int, cw as int) {
                    p.at(x - i0, y - j0)
                } else {
                    before.at(x, y)
                }),
        decreases rh - i,
    {
        let mut j: usize = 0;
        while j < cw
            invariant
                p.wf(),
                before.wf(),
                rh == p.rows(),
                cw == p.cols(),
                i < rh,
                j <= cw,
                view.wf(),
                view.i == i0,
                view.j == j0,
                view.rows == rh,
                view.cols == cw,
                *final(view.base) == after,
                view.base.rows() == before.rows(),
                view.base.cols() == before.cols(),
                forall|x: int, y: int|
                    0 <= x < before.rows() && 0 <= y < before.cols() ==> #[trigger] view.base.at(
                        x,
                        y,
                    ) == (if in_tile(x, y, i0 as int, j0 as int, i as int, cw as int) || (x == i0
                        + i && j0 <= y < j0 + j) {
                        p.at(x - i0, y - j0)
                    } else {
                        before.at(x, y)
                    }),
            decreases cw - j,
        {
            let v = known(p.get(i, j));
            let done = view.set(i, j, v);
            assert(done is Ok);
            j += 1;
        }
        i += 1;
    }
    Ok(())
}

/// Adds to the window of `c` at `(i0, j0)` the product of the window of `a`
/// at `(i0, k0)` and the window of `b` at `(k0, j0)`: each element `(x, y)`
/// of the window of `c` grows by the sum of `a[x, k] * b[k, y]` over the
/// `kw` values of `k` from `k0` on.
pub fn mul_tile_into<T: Ring, A: BasicMatrix<T>, B: BasicMatrix<T>>(
    c: &mut Matrix<T>,
    a: &A,
    b: &B,
    i0: usize,
    j0: usize,
    k0: usize,
    rh: usize,
    cw: usize,
    kw: usize,
)
    requires
        old(c).wf(),
        a.wf(),
        b.wf(),
        old(c).rows() == a.rows(),
        old(c).cols() == b.cols(),
        a.cols() == b.rows(),
        i0 + rh <= a.rows(),
        j0 + cw <= b.cols(),
        k0 + kw <= a.cols(),
    ensures
        final(c).wf(),
        final(c).rows() == old(c).rows(),
        final(c).cols() == old(c).cols(),
        forall|x: int, y: int|
            0 <= x < old(c).rows() && 0 <= y < old(c).cols() ==> #[trigger] final(c).at(x, y) == (
            if in_tile(x, y, i0 as int, j0 as int, rh as int, cw as int) {
                old(c).at(x, y).add_spec(inner(a, b, x, y, k0 as int, k0 + kw))
            } else {
                old(c).at(x, y)
            }),
{
    let sa = known(SubMatrix(a, i0, k0, rh, kw));
    let sb = known(SubMatrix(b, k0, j0, kw, cw));
    proof {
        c.lemma_fits();
        assert(rh * cw <= c.rows() * c.cols()) by (nonlinear_arith)
            requires
                rh <= c.rows(),
                cw <= c.cols(),
        ;
    }
    let p = known(mat_mul(&sa, &sb));
    let ghost before = *c;
    let done = add_tile(c, &p, i0, j0);
    proof {
        assert forall|x: int, y: int|
            0 <= x < before.rows() && 0 <= y < before.cols() implies #[trigger] c.at(x, y) == (
        if in_tile(x, y, i0 as int, j0 as int, rh as int, cw as int) {
            before.at(x, y).add_spec(inner(a, b, x, y, k0 as int, k0 + kw))
        } else {
            before.at(x, y)
        }) by {
            if in_tile(x, y, i0 as int, j0 as int, rh as int, cw as int) {
                assert(p.at(x - i0, y - j0) == product_entry(&sa, &sb, x - i0, y - j0));
                lemma_inner_window(&sa, &sb, x - i0, y - j0, kw as int);
            }
        }
    }
}

/// What the element `(x, y)` of the result holds while the tiles are filled
/// row of tiles by row of tiles: the finished product in the tiles that are
/// done, the sum over the first `kb` terms in the tile at work, and zero in
/// the tiles to come.
pub open spec fn blocked_value<T: Ring, A: BasicMatrix<T>, B: BasicMatrix<T>>(
    a: &A,
    b: &B,
    x: int,
    y: int,
    ib: int,
    rh: int,
    jb: int,
    cw: int,
    kb: int,
) -> T {
    if x < ib || (x < ib + rh && y < jb) {
        product_entry(a, b, x, y)
    } else if x < ib + rh && y < jb + cw {
        inner(a, b, x, y, 0, kb)
    } else {
        T::zero_spec()
    }
}

/// The side of the tile that starts at `start` in a dimension of `total`:
/// `bs`, or what is left of the dimension where that is less.
pub fn tile_side(total: usize, start: usize, bs: usize) -> (side: usize)
    requires
        start < total,
        bs >= 1,
    ensures
        1 <= side <= bs,
        start + side <= total,
        side == (if total - start < bs {
            total - start
        } else {
            bs as int
        }),
{
    if total - start < bs {
        total - start
    } else {
        bs
    }
}

/// The product of `a` and `b` computed in tiles of side `bs`;
/// `DimensionMismatch` where `a` has not as many columns as `b` has rows.
/// The result is the one that [`mat_mul`] gives.
pub fn mat_mul_blocked_by<T: Ring, A: BasicMatrix<T>, B: BasicMatrix<T>>(
    a: &A,
    b: &B,
    bs: usize,
) -> (r: Result<Matrix<T>, MatrixError>)
    requires
        a.wf(),
        b.wf(),
        a.rows() * b.cols() <= usize::MAX,
        bs >= 1,
    ensures
        a.cols() == b.rows() ==> r is Ok && is_product(&r->Ok_0, a, b),
        a.cols() != b.rows() ==> r is Err && r->Err_0 == MatrixError::DimensionMismatch,
{
    if a.num_cols() != b.num_rows() {
        return Err(MatrixError::DimensionMismatch);
    }
    let m = a.num_rows();
    let n = b.num_cols();
    let k = a.num_cols();
    let mut c: Matrix<T> = zeros(m, n);
    let mut ib: usize = 0;
    while ib < m
        invariant
            a.wf(),
            b.wf(),
            bs >= 1,
            m == a.rows(),
            n == b.cols(),
            k == a.cols(),
            k == b.rows(),
            ib <= m,
            c.wf(),
            c.rows() == m,
            c.cols() == n,
            forall|x: int, y: int|
                0 <= x < m && 0 <= y < n ==> #[trigger] c.at(x, y) == blocked_value(
                    a,
                    b,
                    x,
                    y,
                    ib as int,
                    0,
                    0,
                    0,
                    0,
                ),
        decreases m - ib,
    {
        let rh = tile_side(m, ib, bs);
        let mut jb: usize = 0;
        while jb < n
            invariant
                a.wf(),
                b.wf(),
                bs >= 1,
                m == a.rows(),
                n == b.cols(),
                k == a.cols(),
                k == b.rows(),
                ib + rh <= m,
                rh >= 1,
                jb <= n,
                c.wf(),
                c.rows() == m,
                c.cols() == n,
                forall|x: int, y: int|
                    0 <= x < m && 0 <= y < n ==> #[trigger] c.at(x, y) == blocked_value(
                        a,
                        b,
                        x,
                        y,
                        ib as int,
                        rh as int,
                        jb as int,
                        0,
                        0,
                    ),
            decreases n - jb,
        {
            let cw = tile_side(n, jb, bs);
            let mut kb: usize = 0;
            while kb < k
                invariant
                    a.wf(),
                    b.wf(),
                    bs >= 1,
                    m == a.rows(),
                    n == b.cols(),
                    k == a.cols(),
                    k == b.rows(),
                    ib + rh <= m,
                    jb + cw <= n,
                    rh >= 1,
                    cw >= 1,
                    kb <= k,
                    c.wf(),
                    c.rows() == m,
                    c.cols() == n,
                    forall|x: int, y: int|
                        0 <= x < m && 0 <= y < n ==> #[trigger] c.at(x, y) == blocked_value(
                            a,
                            b,
                            x,
                            y,
                            ib as int,
                            rh as int,
                            jb as int,
                            cw as int,
                            kb as int,
                        ),
                decreases k - kb,
            {
                let kw = tile_side(k, kb, bs);
                let ghost before = c;
                mul_tile_into(&mut c, a, b, ib, jb, kb, rh, cw, kw);
                proof {
                    assert forall|x: int, y: int| 0 <= x < m && 0 <= y < n implies #[trigger] c.at(
                        x,
                        y,
                    ) == blocked_value(
                        a,
                        b,
                        x,
                        y,
                        ib as int,
                        rh as int,
                        jb as int,
                        cw as int,
                        kb + kw,
                    ) by {
                        assert(before.at(x, y) == blocked_value(
                            a,
                            b,
                            x,
                            y,
                            ib as int,
                            rh as int,
                            jb as int,
                            cw as int,
                            kb as int,
                        ));
                        if in_tile(x, y, ib as int, jb as int, rh as int, cw as int) {
                            lemma_inner_split(a, b, x, y, 0, kb as int, kb + kw);
                        }
                    }
                }
                kb += kw;
            }
            jb += cw;
        }
        ib += rh;
    }
    Ok(c)
}

/// The product of `a` and `b` computed in tiles of side [`BLOCK_SIZE`];
/// `DimensionMismatch` where `a` has not as many columns as `b` has rows.
/// The result is the one that [`mat_mul`] gives.
pub fn mat_mul_blocked<T: Ring, A: BasicMatrix<T>, B: BasicMatrix<T>>(a: &A, b: &B) -> (r: Result<
    Matrix<T>,
    MatrixError,
>)
    requires
        a.wf(),
        b.wf(),
        a.rows() * b.cols() <= usize::MAX,
    ensures
        a.cols() == b.rows() ==> r is Ok && is_product(&r->Ok_0, a, b),
        a.cols() != b.rows() ==> r is Err && r->Err_0 == MatrixError::DimensionMismatch,
{
    mat_mul_blocked_by(a, b, BLOCK_SIZE)
}

} // verus!
