//! What holds of vectors and matrices across operations.
use vstd::prelude::*;

use crate::linalg::kernels;
use crate::linalg::kernels::is_zero;
use crate::linalg::layout;
use crate::linalg::layout::Grid;
use crate::linalg::lu;
use crate::linalg::matrix;
use crate::linalg::matrix::DMatrix;
use crate::linalg::products;
use crate::linalg::products::ProductKernel;
use crate::scalar::Real;

verus! {

/// Transposing twice gives the matrix back.
pub proof fn lemma_transpose_twice<T>(g: Grid<T>)
    requires
        g.wf(),
    ensures
        g.transposed().transposed() == g,
{
    layout::lemma_same_entries(g.transposed().transposed(), g);
}

/// What is written to a block is what is read from it, and other entries stay.
pub proof fn lemma_block_reads_what_was_written<T>(g: Grid<T>, r: int, c: int, b: Grid<T>)
    requires
        g.wf(),
        b.wf(),
        0 <= r,
        0 <= c,
        r + b.nrows <= g.nrows,
        c + b.cols.len() <= g.cols.len(),
    ensures
        g.with_block(r, c, b).block(r, c, b.nrows, b.cols.len()) == b,
        g.with_block(r, c, g.block(r, c, b.nrows, b.cols.len())) == g,
        forall|i: int, j: int|
            0 <= i < g.nrows && 0 <= j < g.cols.len() && !(r <= i < r + b.nrows && c <= j < c
                + b.cols.len()) ==> #[trigger] g.with_block(r, c, b).at(i, j) == g.at(i, j),
{
    layout::lemma_same_entries(g.with_block(r, c, b).block(r, c, b.nrows, b.cols.len()), b);
    layout::lemma_same_entries(g.with_block(r, c, g.block(r, c, b.nrows, b.cols.len())), g);
}

/// A change through a view of a block that keeps what stands in the gaps of the view changes that
/// block of the matrix, and nothing else.
pub proof fn lemma_view_changes_its_block<T: Real>(
    before: DMatrix<T>,
    after: DMatrix<T>,
    r: int,
    c: int,
    nr: nat,
    nc: nat,
    part: Seq<T>,
    replacement: Seq<T>,
)
    requires
        before.wf(),
        after.nrows == before.nrows,
        after.ncols == before.ncols,
        after.col_stride == before.col_stride,
        0 <= r,
        0 <= c,
        r + nr <= before.nrows,
        c + nc <= before.ncols,
        layout::fits(part.len(), nr, nc, before.col_stride as nat),
        replacement.len() == part.len(),
        layout::same_outside(part, replacement, nr, nc, before.col_stride as nat),
        matrix::written_through(&before, &after, c * before.col_stride + r, part, replacement),
    ensures
        after.wf(),
        after.grid() == before.grid().with_block(
            r,
            c,
            layout::grid_of(replacement, nr, nc, before.col_stride as nat),
        ),
{
    assert(0 <= c * before.col_stride) by (nonlinear_arith)
        requires
            0 <= c,
            0 <= before.col_stride,
    ;
    layout::lemma_with_block(
        before.data@,
        before.nrows as nat,
        before.ncols as nat,
        before.col_stride as nat,
        r,
        c,
        nr,
        nc,
        replacement,
    );
}

/// Exchanging two rows twice gives the matrix back.
pub proof fn lemma_swap_twice<T>(g: Grid<T>, a: int, b: int)
    requires
        g.wf(),
        0 <= a < g.nrows,
        0 <= b < g.nrows,
    ensures
        g.swap_rows(a, b, 0, g.cols.len() as int).swap_rows(a, b, 0, g.cols.len() as int) == g,
{
    layout::lemma_same_entries(
        g.swap_rows(a, b, 0, g.cols.len() as int).swap_rows(a, b, 0, g.cols.len() as int),
        g,
    );
}

/// Row exchanges keep the shape.
pub proof fn lemma_permuted_shape<T>(g: Grid<T>, swaps: Seq<(usize, usize)>, k: nat)
    requires
        g.wf(),
    ensures
        lu::permuted(g, swaps, k).wf(),
        lu::permuted(g, swaps, k).nrows == g.nrows,
        lu::permuted(g, swaps, k).cols.len() == g.cols.len(),
    decreases k,
{
    if k > 0 {
        lemma_permuted_shape(g, swaps, (k - 1) as nat);
    }
}

/// Row exchanges before the last one do not depend on it.
pub proof fn lemma_permuted_prefix<T>(
    g: Grid<T>,
    s: Seq<(usize, usize)>,
    t: Seq<(usize, usize)>,
    k: nat,
)
    requires
        k <= s.len(),
        k <= t.len(),
        forall|i: int| 0 <= i < k ==> s[i] == t[i],
    ensures
        lu::permuted(g, s, k) == lu::permuted(g, t, k),
    decreases k,
{
    if k > 0 {
        lemma_permuted_prefix(g, s, t, (k - 1) as nat);
    }
}

/// A first exchange, and then the others.
proof fn lemma_permuted_first<T>(g: Grid<T>, s: Seq<(usize, usize)>, k: nat)
    requires
        g.wf(),
        0 < k <= s.len(),
    ensures
        lu::permuted(g, s, k) == lu::permuted(
            g.swap_rows(s[0].0 as int, s[0].1 as int, 0, g.cols.len() as int),
            s.subrange(1, s.len() as int),
            (k - 1) as nat,
        ),
    decreases k,
{
    let h = g.swap_rows(s[0].0 as int, s[0].1 as int, 0, g.cols.len() as int);
    let rest = s.subrange(1, s.len() as int);
    if k == 1 {
        assert(lu::permuted(g, s, 0) == g);
        assert(lu::permuted(h, rest, 0) == h);
    } else {
        lemma_permuted_first(g, s, (k - 1) as nat);
        assert(rest[k - 2] == s[k - 1]);
        assert(h.cols.len() == g.cols.len());
    }
}

/// Doing row exchanges, and then the same ones in reverse order, gives the matrix back.
pub proof fn lemma_permutation_undone<T>(g: Grid<T>, swaps: Seq<(usize, usize)>)
    requires
        g.wf(),
        lu::within(swaps, g.nrows),
    ensures
        lu::permuted(
            lu::permuted(g, swaps, swaps.len()),
            swaps.reverse(),
            swaps.len(),
        ) == g,
    decreases swaps.len(),
{
    let n = swaps.len();
    if n > 0 {
        let front = swaps.drop_last();
        let last = swaps.last();
        let h = lu::permuted(g, front, front.len());
        lemma_permuted_shape(g, front, front.len());
        lemma_permuted_prefix(g, swaps, front, (n - 1) as nat);
        let done = lu::permuted(g, swaps, n);
        assert(done == h.swap_rows(last.0 as int, last.1 as int, 0, g.cols.len() as int));
        lemma_permuted_shape(g, swaps, n);
        let back = swaps.reverse();
        assert(back[0] == last);
        lemma_permuted_first(done, back, n);
        assert(swaps[n - 1] == last);
        lemma_swap_twice(h, last.0 as int, last.1 as int);
        assert(back.subrange(1, n as int) =~= front.reverse());
        assert forall|k: int| 0 <= k < front.len() implies (#[trigger] front[k]).0 < g.nrows
            && front[k].1 < g.nrows by {
            assert(front[k] == swaps[k]);
        }
        lemma_permutation_undone(g, front);
    }
}

/// A factorisation exchanges a row only with one further down, at most once for each column, and
/// in the order of the columns.
pub proof fn lemma_exchanges_go_down<T: Real>(g: Grid<T>, k: nat)
    requires
        g.wf(),
        k <= lu::shorter_side(g),
        g.nrows <= usize::MAX,
    ensures
        lu::lu_steps(g, k).0.wf(),
        lu::lu_steps(g, k).0.nrows == g.nrows,
        lu::lu_steps(g, k).0.cols.len() == g.cols.len(),
        lu::lu_steps(g, k).1.len() <= k,
        forall|s: int|
            0 <= s < lu::lu_steps(g, k).1.len() ==> {
                let e = #[trigger] lu::lu_steps(g, k).1[s];
                e.0 < e.1 && e.1 < g.nrows && e.0 < k
            },
        forall|s: int, t: int|
            0 <= s < t < lu::lu_steps(g, k).1.len() ==> (#[trigger] lu::lu_steps(g, k).1[s]).0 < (
            #[trigger] lu::lu_steps(g, k).1[t]).0,
    decreases k,
{
    if k > 0 {
        lemma_exchanges_go_down(g, (k - 1) as nat);
        let (h, swaps) = lu::lu_steps(g, (k - 1) as nat);
        let i = (k - 1) as nat;
        lu::lemma_pivot_in_range(h.cols[i as int], i, h.nrows);
    }
}

/// The quadratic form is the transpose of `rhs` times the product of `mid` and `rhs`.
pub proof fn lemma_quadform_is_two_products<T: Real>(
    alpha: T,
    mid: Grid<T>,
    rhs: Grid<T>,
    beta: T,
    c: Grid<T>,
)
    requires
        c.cols.len() == rhs.cols.len(),
    ensures
        ({
            let inner = products::product_by_columns(
                T::one(),
                mid,
                rhs,
                T::zero(),
                Grid::tabulate(mid.nrows, rhs.cols.len(), |i: int, j: int| T::zero()),
            );
            products::quadform(alpha, mid, rhs, beta, c) == products::gemm_tr(
                alpha,
                rhs,
                inner,
                beta,
                c,
            )
        }),
{
    let blank = Grid::tabulate(mid.nrows, rhs.cols.len(), |i: int, j: int| T::zero());
    let inner = products::product_by_columns(T::one(), mid, rhs, T::zero(), blank);
    let q = products::quadform(alpha, mid, rhs, beta, c);
    let p = products::gemm_tr(alpha, rhs, inner, beta, c);
    assert forall|j: int| 0 <= j < q.cols.len() implies q.cols[j] == p.cols[j] by {
        assert(blank.cols[j] =~= Seq::new(mid.nrows, |i: int| T::zero()));
    }
    assert(q.cols =~= p.cols);
}

/// With a zero factor for the old entries, a product does not depend on them, whatever its size.
pub proof fn lemma_zero_beta_gemm<T: ProductKernel>(
    alpha: T,
    a: Grid<T>,
    b: Grid<T>,
    c: Grid<T>,
    d: Grid<T>,
)
    requires
        c.wf(),
        d.wf(),
        c.nrows == d.nrows,
        c.cols.len() == d.cols.len(),
        b.cols.len() == c.cols.len(),
    ensures
        products::gemm(alpha, a, b, T::zero(), c) == products::gemm(alpha, a, b, T::zero(), d),
{
    T::law_zero_one();
    let p = products::gemm(alpha, a, b, T::zero(), c);
    let q = products::gemm(alpha, a, b, T::zero(), d);
    if products::is_large(c.nrows as usize, c.cols.len() as usize, a.cols.len() as usize) {
        assert forall|i: int, j: int|
            0 <= i < p.nrows && 0 <= j < p.cols.len() implies #[trigger] p.at(i, j) == q.at(
            i,
            j,
        ) by {
            T::law_zero_beta(
                alpha,
                a.row(i),
                b.cols[j],
                T::zero(),
                c.at(i, j),
                d.at(i, j),
                (i as usize, j as usize),
                (c.nrows as usize, c.cols.len() as usize),
            );
        }
        layout::lemma_same_entries(p, q);
    } else {
        assert forall|j: int| 0 <= j < p.cols.len() implies p.cols[j] == q.cols[j] by {
            assert(c.cols[j].len() == d.cols[j].len());
            products::lemma_zero_beta_gemv(alpha, a.cols, b.cols[j], c.cols[j], d.cols[j]);
        }
        assert(p.cols =~= q.cols);
    }
}

/// With a zero factor for the old entries, a product with a transpose does not depend on them.
pub proof fn lemma_zero_beta_gemv_tr<T: Real>(
    alpha: T,
    a: Seq<Seq<T>>,
    x: Seq<T>,
    beta: T,
    y: Seq<T>,
    z: Seq<T>,
)
    requires
        is_zero(beta),
        y.len() == z.len(),
    ensures
        kernels::gemv_tr(alpha, a, x, beta, y) == kernels::gemv_tr(alpha, a, x, beta, z),
{
    assert(kernels::gemv_tr(alpha, a, x, beta, y) =~= kernels::gemv_tr(alpha, a, x, beta, z));
}

/// With a zero factor for the old entries, `a * x + b * y` does not depend on them.
pub proof fn lemma_zero_beta_axpy<T: Real>(a: T, x: Seq<T>, b: T, y: Seq<T>, z: Seq<T>)
    requires
        is_zero(b),
        y.len() == z.len(),
    ensures
        kernels::axpy(a, x, b, y) == kernels::axpy(a, x, b, z),
{
    assert(kernels::axpy(a, x, b, y) =~= kernels::axpy(a, x, b, z));
}

/// A matrix without a zero on the diagonal of its factors is solved for every right-hand side, and
/// a matrix with one for none that has a column.
pub proof fn lemma_regular_is_solvable<T: Real>(g: Grid<T>)
    ensures
        lu::regular(g) <==> lu::solvable_from(g, g.nrows) == 0,
{
    lu::lemma_solvable_from(g, g.nrows);
    if lu::solvable_from(g, g.nrows) > 0 {
        assert(is_zero(
            g.at(
                lu::solvable_from(g, g.nrows) - 1,
                lu::solvable_from(g, g.nrows) - 1,
            ),
        ));
    }
}

} // verus!
