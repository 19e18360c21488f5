//! What a factorisation is for, where arithmetic is exact: the triangles multiply to the matrix
//! with its rows exchanged, and solving gives what the matrix takes to the right-hand sides.
use vstd::prelude::*;
use crate::exact;
use crate::exact::{exact, total};
use crate::linalg::laws;
use crate::linalg::layout;
use crate::linalg::layout::Grid;
use crate::linalg::lu;
use crate::scalar::Real;

verus! {

/// The product of two matrices.
pub open spec fn times<T: Real>(a: Grid<T>, b: Grid<T>) -> Grid<T> {
    Grid::tabulate(
        a.nrows,
        b.cols.len(),
        |r: int, c: int| total(|k: int| a.at(r, k).mul(b.at(k, c)), a.cols.len()),
    )
}

/// Entry `(r, k)` of the lower triangle that a factorisation holds: it has ones on its diagonal.
pub open spec fn below<T: Real>(lu: Grid<T>, r: int, k: int) -> T {
    if r == k {
        T::one()
    } else if r > k {
        lu.at(r, k)
    } else {
        T::zero()
    }
}

/// Entry `(k, c)` of the upper triangle that a factorisation holds.
pub open spec fn above<T: Real>(lu: Grid<T>, k: int, c: int) -> T {
    if k <= c {
        lu.at(k, c)
    } else {
        T::zero()
    }
}

/// The lower triangle that a factorisation holds.
pub open spec fn lower_factor<T: Real>(lu: Grid<T>) -> Grid<T> {
    Grid::tabulate(lu.nrows, lu::shorter_side(lu), |r: int, k: int| below(lu, r, k))
}

/// The upper triangle that a factorisation holds.
pub open spec fn upper_factor<T: Real>(lu: Grid<T>) -> Grid<T> {
    Grid::tabulate(lu::shorter_side(lu), lu.cols.len(), |k: int, c: int| above(lu, k, c))
}

/// The terms of entry `(r, c)` of the product of the triangles.
spec fn terms<T: Real>(lu: Grid<T>, r: int, c: int) -> spec_fn(int) -> T {
    |k: int| below(lu, r, k).mul(above(lu, k, c))
}

/// What `k` steps have left of the matrix.
spec fn rest<T: Real>(lu: Grid<T>, k: nat, r: int, c: int) -> T {
    if r >= k && c >= k {
        lu.at(r, c)
    } else {
        T::zero()
    }
}

/// What `k` steps have split off, and what they have left.
spec fn parts<T: Real>(lu: Grid<T>, k: nat, r: int, c: int) -> T {
    total(terms(lu, r, c), k).add(rest(lu, k, r, c))
}

/// The row that an exchange puts in the place of row `r`.
spec fn exchanged(r: int, a: int, b: int) -> int {
    if r == a {
        b
    } else if r == b {
        a
    } else {
        r
    }
}

proof fn lemma_parts_exchanged<T: Real>(h: Grid<T>, k: nat, piv: int, r: int, c: int)
    requires
        h.wf(),
        k <= piv < h.nrows,
        k < h.cols.len(),
        0 <= r < h.nrows,
        0 <= c < h.cols.len(),
    ensures
        parts(h.swap_rows(k as int, piv, 0, h.cols.len() as int), k, r, c) == parts(
            h,
            k,
            exchanged(r, k as int, piv),
            c,
        ),
{
    let g = h.swap_rows(k as int, piv, 0, h.cols.len() as int);
    let s = exchanged(r, k as int, piv);
    let f = terms(g, r, c);
    let e = terms(h, s, c);
    assert forall|j: int| 0 <= j < k implies #[trigger] f(j) == e(j) by {
        assert(below(g, r, j) == below(h, s, j));
        assert(above(g, j, c) == above(h, j, c));
    }
    exact::lemma_total_same(f, e, k);
    assert(g.at(r, c) == h.at(s, c));
}

proof fn lemma_step_splits_off<T: Real>(s: T, term: T, left: T, now: T)
    requires
        exact::<T>(),
        term.add(now) == left,
    ensures
        s.add(term).add(now) == s.add(left),
{
    exact::lemma_add_associates(s, term, now);
}

proof fn lemma_row_taken_away<T: Real>(x: T, m: T, y: T)
    requires
        exact::<T>(),
    ensures
        m.mul(x).add(x.neg().mul(m).add(y)) == y,
{
    exact::lemma_neg_times(x, m);
    exact::lemma_mul_commutes(x, m);
    let p = m.mul(x);
    exact::lemma_add_associates(p, p.neg(), y);
    exact::lemma_add_neg(p);
    exact::lemma_add_zero(y);
}

proof fn lemma_multiplier<T: Real>(x: T, diag: T)
    requires
        exact::<T>(),
        diag != T::zero(),
    ensures
        x.mul(T::one().div(diag)).mul(diag) == x,
{
    exact::lemma_mul_associates(x, T::one().div(diag), diag);
    exact::lemma_div_times(T::one(), diag);
    exact::lemma_mul_one(x);
}

proof fn lemma_parts_eliminated<T: Real>(h: Grid<T>, k: nat, r: int, c: int)
    requires
        exact::<T>(),
        h.wf(),
        k < h.nrows,
        k < h.cols.len(),
        h.at(k as int, k as int) != T::zero(),
        0 <= r < h.nrows,
        0 <= c < h.cols.len(),
    ensures
        parts(lu::eliminated(h, h.at(k as int, k as int), k as int), k + 1, r, c) == parts(
            h,
            k,
            r,
            c,
        ),
{
    let diag = h.at(k as int, k as int);
    let g = lu::eliminated(h, diag, k as int);
    let f = terms(g, r, c);
    let e = terms(h, r, c);
    assert forall|j: int| 0 <= j < k implies #[trigger] f(j) == e(j) by {
        assert(below(g, r, j) == below(h, r, j));
        assert(above(g, j, c) == above(h, j, c));
    }
    exact::lemma_total_same(f, e, k);
    let term = f(k as int);
    assert(term == below(g, r, k as int).mul(above(g, k as int, c)));
    let left = rest(h, k, r, c);
    let now = rest(g, k + 1, r, c);
    let m = h.at(r, k as int).mul(T::one().div(diag));
    if r < k {
        exact::lemma_mul_zero(above(g, k as int, c));
        exact::lemma_add_zero(T::zero());
    } else if r == k {
        exact::lemma_mul_one(above(g, k as int, c));
        exact::lemma_add_zero(above(g, k as int, c));
        assert(above(g, k as int, c) == left);
    } else if c < k {
        exact::lemma_mul_zero(below(g, r, k as int));
        exact::lemma_add_zero(T::zero());
    } else if c == k {
        assert(below(g, r, k as int) == m);
        lemma_multiplier(h.at(r, k as int), diag);
        exact::lemma_add_zero(left);
    } else {
        assert(below(g, r, k as int) == m);
        lemma_row_taken_away(h.at(k as int, c), m, h.at(r, c));
    }
    lemma_step_splits_off(total(e, k), term, left, now);
}

proof fn lemma_parts_passed_over<T: Real>(h: Grid<T>, k: nat, r: int, c: int)
    requires
        exact::<T>(),
        h.wf(),
        k < h.nrows,
        k < h.cols.len(),
        forall|i: int| k <= i < h.nrows ==> #[trigger] h.at(i, k as int) == T::zero(),
        0 <= r < h.nrows,
        0 <= c < h.cols.len(),
    ensures
        parts(h, k + 1, r, c) == parts(h, k, r, c),
{
    let e = terms(h, r, c);
    let term = e(k as int);
    assert(term == below(h, r, k as int).mul(above(h, k as int, c)));
    let left = rest(h, k, r, c);
    let now = rest(h, k + 1, r, c);
    if r == k {
        exact::lemma_mul_one(above(h, k as int, c));
        exact::lemma_add_zero(above(h, k as int, c));
        assert(above(h, k as int, c) == left);
    } else {
        if r > k {
            assert(h.at(r, k as int) == T::zero());
        }
        assert(below(h, r, k as int) == T::zero());
        exact::lemma_mul_zero(above(h, k as int, c));
        exact::lemma_add_zero(now);
        assert(now == left);
    }
    lemma_step_splits_off(total(e, k), term, left, now);
}

/// Where the entry of largest magnitude is zero, all entries are.
proof fn lemma_zero_pivot<T: Real>(col: Seq<T>, r0: nat, k: nat, i: int)
    requires
        exact::<T>(),
        r0 <= i < k,
        col[lu::pivot(col, r0, k) as int] == T::zero(),
    ensures
        col[i] == T::zero(),
    decreases k,
{
    if k > r0 + 1 {
        let best = lu::pivot(col, r0, (k - 1) as nat);
        let last = col[k - 1];
        exact::lemma_least_magnitude(col[best as int]);
        exact::lemma_least_magnitude(last);
        if i < k - 1 {
            lemma_zero_pivot(col, r0, (k - 1) as nat, i);
        }
    }
}

proof fn lemma_steps_split<T: Real>(g: Grid<T>, k: nat, r: int, c: int)
    requires
        exact::<T>(),
        g.wf(),
        k <= lu::shorter_side(g),
        g.nrows <= usize::MAX,
        0 <= r < g.nrows,
        0 <= c < g.cols.len(),
    ensures
        ({
            let (h, swaps) = lu::lu_steps(g, k);
            parts(h, k, r, c) == lu::permuted(g, swaps, swaps.len()).at(r, c)
        }),
    decreases k,
{
    if k == 0 {
        exact::lemma_add_zero(g.at(r, c));
    } else {
        let i = (k - 1) as nat;
        let (h, swaps) = lu::lu_steps(g, i);
        laws::lemma_exchanges_go_down(g, i);
        let piv = lu::pivot(h.cols[i as int], i, h.nrows);
        lu::lemma_pivot_in_range(h.cols[i as int], i, h.nrows);
        let diag = h.at(piv as int, i as int);
        exact::lemma_equals_zero(diag);
        if diag == T::zero() {
            assert forall|a: int| i <= a < h.nrows implies #[trigger] h.at(a, i as int)
                == T::zero() by {
                lemma_zero_pivot(h.cols[i as int], i, h.nrows, a);
            }
            lemma_steps_split(g, i, r, c);
            lemma_parts_passed_over(h, i, r, c);
        } else if piv == i {
            lemma_steps_split(g, i, r, c);
            lemma_parts_eliminated(h, i, r, c);
        } else {
            let ncols = h.cols.len() as int;
            let moved = h.swap_rows(i as int, piv as int, 0, ncols);
            let more = swaps.push((i as usize, piv as usize));
            let s = exchanged(r, i as int, piv as int);
            lemma_steps_split(g, i, s, c);
            lemma_parts_exchanged(h, i, piv as int, r, c);
            assert(moved.at(i as int, i as int) == diag);
            lemma_parts_eliminated(moved, i, r, c);
            laws::lemma_permuted_prefix(g, swaps, more, swaps.len());
            laws::lemma_permuted_shape(g, swaps, swaps.len());
            let p = lu::permuted(g, swaps, swaps.len());
            assert(lu::permuted(g, more, more.len()) == p.swap_rows(
                i as int,
                piv as int,
                0,
                ncols,
            ));
            assert(lu::permuted(g, more, more.len()).at(r, c) == p.at(s, c));
        }
    }
}

/// The triangles that a factorisation finds multiply to the matrix with its rows exchanged, where
/// arithmetic is exact.
pub proof fn lemma_factors_multiply_back<T: Real>(g: Grid<T>)
    requires
        exact::<T>(),
        g.wf(),
        g.nrows <= usize::MAX,
    ensures
        ({
            let (lu, swaps) = lu::lu_steps(g, lu::shorter_side(g));
            times(lower_factor(lu), upper_factor(lu)) == lu::permuted(g, swaps, swaps.len())
        }),
{
    let n = lu::shorter_side(g);
    let (lu, swaps) = lu::lu_steps(g, n);
    laws::lemma_exchanges_go_down(g, n);
    laws::lemma_permuted_shape(g, swaps, swaps.len());
    let a = lower_factor(lu);
    let b = upper_factor(lu);
    let p = lu::permuted(g, swaps, swaps.len());
    assert forall|r: int, c: int|
        0 <= r < g.nrows && 0 <= c < g.cols.len() implies #[trigger] times(a, b).at(r, c) == p.at(
        r,
        c,
    ) by {
        lemma_steps_split(g, n, r, c);
        let f = |k: int| a.at(r, k).mul(b.at(k, c));
        exact::lemma_total_same(f, terms(lu, r, c), n);
        exact::lemma_add_zero(total(terms(lu, r, c), n));
    }
    layout::lemma_same_entries(times(a, b), p);
}

/// The terms of row `r` of a lower triangle without its diagonal.
spec fn row_terms<T: Real>(lu: Grid<T>, x: Seq<T>, r: int) -> spec_fn(int) -> T {
    |j: int| lu.at(r, j).mul(x[j])
}

spec fn at_most(k: nat, r: int) -> nat {
    if k <= r {
        k
    } else {
        r as nat
    }
}

proof fn lemma_lower_so_far<T: Real>(lu: Grid<T>, b: Seq<T>, k: nat, r: int)
    requires
        exact::<T>(),
        b.len() == lu.nrows,
        k < lu.nrows,
        0 <= r < lu.nrows,
    ensures
        ({
            let x = lu::lower(lu, T::one(), b, k);
            &&& x.len() == b.len()
            &&& b[r] == x[r].add(total(row_terms(lu, x, r), at_most(k, r)))
        }),
    decreases k,
{
    if k == 0 {
        exact::lemma_add_zero(b[r]);
    } else {
        let i = (k - 1) as nat;
        lemma_lower_so_far(lu, b, i, r);
        let x = lu::lower(lu, T::one(), b, i);
        let y = lu::lower(lu, T::one(), b, k);
        let (f, g) = (row_terms(lu, x, r), row_terms(lu, y, r));
        exact::lemma_div_one(x[i as int]);
        assert forall|j: int| 0 <= j <= i implies #[trigger] g(j) == f(j) by {
            assert(y[j] == x[j]);
        }
        exact::lemma_total_same(g, f, at_most(i, r));
        if r > i {
            let p = x[i as int].mul(lu.at(r, i as int));
            exact::lemma_mul_commutes(x[i as int], lu.at(r, i as int));
            assert(g(i as int) == p);
            exact::lemma_moved_over(x[r], total(f, i), p);
        }
    }
}

/// Forward substitution finds what the lower triangle takes to the right-hand side.
proof fn lemma_lower_solves<T: Real>(lu: Grid<T>, b: Seq<T>, r: int)
    requires
        exact::<T>(),
        b.len() == lu.nrows,
        0 <= r < lu.nrows,
    ensures
        ({
            let y = lu::lower(lu, T::one(), b, (lu.nrows - 1) as nat);
            total(|j: int| below(lu, r, j).mul(y[j]), lu.nrows) == b[r]
        }),
{
    let n = lu.nrows;
    let y = lu::lower(lu, T::one(), b, (n - 1) as nat);
    let f = |j: int| below(lu, r, j).mul(y[j]);
    lemma_lower_so_far(lu, b, (n - 1) as nat, r);
    let g = row_terms(lu, y, r);
    exact::lemma_total_same(f, g, r as nat);
    exact::lemma_mul_one(y[r]);
    assert(total(f, (r + 1) as nat) == total(f, r as nat).add(f(r)));
    assert forall|j: int| r + 1 <= j < n implies #[trigger] f(j) == T::zero() by {
        exact::lemma_mul_zero(y[j]);
    }
    exact::lemma_total_ends(f, (r + 1) as nat, n);
    exact::lemma_add_commutes(y[r], total(g, r as nat));
}

/// The terms of row `r` of an upper triangle from column `k` on.
spec fn tail_terms<T: Real>(lu: Grid<T>, z: Seq<T>, k: nat, r: int) -> spec_fn(int) -> T {
    |j: int|
        if j >= k && j >= r {
            lu.at(r, j).mul(z[j])
        } else {
            T::zero()
        }
}

proof fn lemma_upper_so_far<T: Real>(lu: Grid<T>, y: Seq<T>, k: nat, r: int)
    requires
        exact::<T>(),
        y.len() == lu.nrows,
        forall|i: int| 0 <= i < lu.nrows ==> #[trigger] lu.at(i, i) != T::zero(),
        k <= lu.nrows,
        0 <= r < lu.nrows,
    ensures
        ({
            let z = lu::upper(lu, y, k);
            &&& z.len() == y.len()
            &&& y[r] == (if r < k {
                z[r]
            } else {
                T::zero()
            }).add(total(tail_terms(lu, z, k, r), lu.nrows))
        }),
    decreases lu.nrows - k,
{
    let n = lu.nrows;
    if k == n {
        let f = tail_terms(lu, y, k, r);
        exact::lemma_total_ends(f, 0, n);
        exact::lemma_add_zero(y[r]);
    } else {
        lemma_upper_so_far(lu, y, k + 1, r);
        let x = lu::upper(lu, y, k + 1);
        let z = lu::upper(lu, y, k);
        let (f, g) = (tail_terms(lu, x, k + 1, r), tail_terms(lu, z, k, r));
        let i = k as int;
        let coeff = x[i].div(lu.at(i, i));
        assert forall|j: int| 0 <= j < n && j != i implies #[trigger] g(j) == f(j) by {
            if j > i {
                assert(z[j] == x[j]);
            }
        }
        if r > i {
            exact::lemma_total_same(g, f, n);
        } else {
            exact::lemma_total_one_more(f, g, i, n);
            assert(g(i) == lu.at(r, i).mul(coeff));
            if r == i {
                exact::lemma_div_times(x[i], lu.at(i, i));
                exact::lemma_add_commutes(x[i], total(f, n));
                exact::lemma_add_zero(total(g, n));
            } else {
                exact::lemma_mul_commutes(coeff, lu.at(r, i));
                exact::lemma_moved_over(x[r], total(f, n), g(i));
            }
        }
    }
}

/// Back substitution finds what the upper triangle takes to the right-hand side.
proof fn lemma_upper_solves<T: Real>(lu: Grid<T>, y: Seq<T>, r: int)
    requires
        exact::<T>(),
        y.len() == lu.nrows,
        forall|i: int| 0 <= i < lu.nrows ==> #[trigger] lu.at(i, i) != T::zero(),
        0 <= r < lu.nrows,
    ensures
        ({
            let z = lu::upper(lu, y, 0);
            total(|j: int| above(lu, r, j).mul(z[j]), lu.nrows) == y[r]
        }),
{
    let z = lu::upper(lu, y, 0);
    let f = |j: int| above(lu, r, j).mul(z[j]);
    let g = tail_terms(lu, z, 0, r);
    lemma_upper_so_far(lu, y, 0, r);
    assert forall|j: int| 0 <= j < lu.nrows implies #[trigger] f(j) == g(j) by {
        exact::lemma_mul_zero(z[j]);
    }
    exact::lemma_total_same(f, g, lu.nrows);
    exact::lemma_add_zero(total(g, lu.nrows));
}

/// The product of matrices is associative where arithmetic is exact.
pub proof fn lemma_times_associates<T: Real>(a: Grid<T>, b: Grid<T>, c: Grid<T>)
    requires
        exact::<T>(),
        a.cols.len() == b.nrows,
        b.cols.len() == c.nrows,
    ensures
        times(times(a, b), c) == times(a, times(b, c)),
{
    let (m, n) = (b.nrows, b.cols.len());
    let p = times(times(a, b), c);
    let q = times(a, times(b, c));
    assert forall|r: int, s: int| 0 <= r < p.nrows && 0 <= s < p.cols.len() implies #[trigger] p.at(
        r,
        s,
    ) == q.at(r, s) by {
        let each = |j: int, k: int| a.at(r, k).mul(b.at(k, j)).mul(c.at(j, s));
        let f = |j: int| times(a, b).at(r, j).mul(c.at(j, s));
        let g = |k: int| a.at(r, k).mul(times(b, c).at(k, s));
        let by_col = |j: int| total(|k: int| each(j, k), m);
        let by_row = |k: int| total(|j: int| each(j, k), n);
        assert forall|j: int| 0 <= j < n implies #[trigger] f(j) == by_col(j) by {
            let inner = |k: int| a.at(r, k).mul(b.at(k, j));
            let scaled = |k: int| each(j, k);
            assert(times(a, b).at(r, j) == total(inner, m));
            assert forall|k: int| 0 <= k < m implies #[trigger] scaled(k) == c.at(j, s).mul(
                inner(k),
            ) by {
                exact::lemma_mul_commutes(inner(k), c.at(j, s));
            }
            exact::lemma_total_scaled(c.at(j, s), inner, scaled, m);
            exact::lemma_mul_commutes(total(inner, m), c.at(j, s));
        }
        assert forall|k: int| 0 <= k < m implies #[trigger] g(k) == by_row(k) by {
            let inner = |j: int| b.at(k, j).mul(c.at(j, s));
            let scaled = |j: int| each(j, k);
            assert(times(b, c).at(k, s) == total(inner, n));
            assert forall|j: int| 0 <= j < n implies #[trigger] scaled(j) == a.at(r, k).mul(
                inner(j),
            ) by {
                exact::lemma_mul_associates(a.at(r, k), b.at(k, j), c.at(j, s));
            }
            exact::lemma_total_scaled(a.at(r, k), inner, scaled, n);
        }
        exact::lemma_total_same(f, by_col, n);
        exact::lemma_total_same(g, by_row, m);
        exact::lemma_total_interchanged(each, n, m);
    }
    layout::lemma_same_entries(p, q);
}

/// Row exchanges of a matrix are row exchanges of its products.
proof fn lemma_permuted_times<T: Real>(
    g: Grid<T>,
    x: Grid<T>,
    swaps: Seq<(usize, usize)>,
    k: nat,
)
    requires
        g.wf(),
        k <= swaps.len(),
        lu::within(swaps, g.nrows),
    ensures
        times(lu::permuted(g, swaps, k), x) == lu::permuted(times(g, x), swaps, k),
    decreases k,
{
    if k > 0 {
        lemma_permuted_times(g, x, swaps, (k - 1) as nat);
        let h = lu::permuted(g, swaps, (k - 1) as nat);
        let (a, b) = (swaps[k - 1].0 as int, swaps[k - 1].1 as int);
        laws::lemma_permuted_shape(g, swaps, (k - 1) as nat);
        laws::lemma_permuted_shape(g, swaps, k);
        laws::lemma_permuted_shape(times(g, x), swaps, (k - 1) as nat);
        laws::lemma_permuted_shape(times(g, x), swaps, k);
        let moved = lu::permuted(g, swaps, k);
        let p = times(moved, x);
        let q = lu::permuted(times(g, x), swaps, k);
        assert forall|r: int, c: int|
            0 <= r < p.nrows && 0 <= c < p.cols.len() implies #[trigger] p.at(r, c) == q.at(
            r,
            c,
        ) by {
            let s = exchanged(r, a, b);
            let f = |j: int| moved.at(r, j).mul(x.at(j, c));
            let e = |j: int| h.at(s, j).mul(x.at(j, c));
            assert forall|j: int| 0 <= j < g.cols.len() implies #[trigger] f(j) == e(j) by {
                assert(moved.at(r, j) == h.at(s, j));
            }
            exact::lemma_total_same(f, e, g.cols.len());
            assert(p.at(r, c) == total(f, g.cols.len()));
            assert(times(h, x).at(s, c) == total(e, g.cols.len()));
            assert(q.at(r, c) == times(h, x).at(s, c));
        }
        layout::lemma_same_entries(p, q);
    }
}

proof fn lemma_factors_solve<T: Real>(lu: Grid<T>, b: Grid<T>)
    requires
        exact::<T>(),
        lu.wf(),
        lu.nrows == lu.cols.len(),
        lu.nrows > 0,
        lu::regular(lu),
        b.wf(),
        b.nrows == lu.nrows,
    ensures
        ({
            let x = lu::upper_all(lu, lu::lower_all(lu, T::one(), b));
            &&& x.nrows == b.nrows
            &&& x.cols.len() == b.cols.len()
            &&& times(times(lower_factor(lu), upper_factor(lu)), x) == b
        }),
{
    let n = lu.nrows;
    let y = lu::lower_all(lu, T::one(), b);
    let x = lu::upper_all(lu, y);
    let (l, u) = (lower_factor(lu), upper_factor(lu));
    lu::lemma_solvable_from(lu, n);
    let reached = lu::solvable_from(lu, n);
    if reached > 0 {
        assert(lu::regular(lu));
        assert(!lu.at(reached - 1, reached - 1).equals(T::zero()));
    }
    assert forall|i: int| 0 <= i < n implies #[trigger] lu.at(i, i) != T::zero() by {
        exact::lemma_equals_zero(lu.at(i, i));
    }
    assert forall|c: int| 0 <= c < b.cols.len() implies #[trigger] y.cols[c].len() == n by {
        assert(b.cols[c].len() == n);
        lemma_lower_so_far(lu, b.cols[c], (n - 1) as nat, 0);
    }
    let ux = times(u, x);
    assert forall|r: int, c: int| 0 <= r < n && 0 <= c < b.cols.len() implies #[trigger] ux.at(
        r,
        c,
    ) == y.at(r, c) by {
        assert(y.cols[c].len() == n);
        lemma_upper_solves(lu, y.cols[c], r);
        let z = lu::upper(lu, y.cols[c], 0);
        assert(x.cols[c] == z);
        let f = |k: int| u.at(r, k).mul(x.at(k, c));
        let g = |j: int| above(lu, r, j).mul(z[j]);
        exact::lemma_total_same(f, g, n);
        assert(ux.at(r, c) == total(f, n));
    }
    layout::lemma_same_entries(ux, y);
    let ly = times(l, y);
    assert forall|r: int, c: int| 0 <= r < n && 0 <= c < b.cols.len() implies #[trigger] ly.at(
        r,
        c,
    ) == b.at(r, c) by {
        assert(b.cols[c].len() == n);
        lemma_lower_solves(lu, b.cols[c], r);
        let z = lu::lower(lu, T::one(), b.cols[c], (n - 1) as nat);
        assert(y.cols[c] == z);
        let f = |k: int| l.at(r, k).mul(y.at(k, c));
        let g = |j: int| below(lu, r, j).mul(z[j]);
        exact::lemma_total_same(f, g, n);
        assert(ly.at(r, c) == total(f, n));
    }
    layout::lemma_same_entries(ly, b);
    lemma_times_associates(l, u, x);
}

/// What solving finds is taken by the matrix to the right-hand sides, where arithmetic is exact.
/// With the right-hand sides of the identity it is the inverse.
pub proof fn lemma_solution_solves<T: Real>(g: Grid<T>, b: Grid<T>)
    requires
        exact::<T>(),
        g.wf(),
        g.nrows == g.cols.len(),
        0 < g.nrows <= usize::MAX,
        b.wf(),
        b.nrows == g.nrows,
        lu::regular(lu::lu_steps(g, g.nrows).0),
    ensures
        ({
            let (lu, swaps) = lu::lu_steps(g, g.nrows);
            times(g, lu::solved(lu, swaps, b)) == b
        }),
{
    let n = g.nrows;
    let (lu, swaps) = lu::lu_steps(g, n);
    laws::lemma_exchanges_go_down(g, n);
    assert(lu::within(swaps, n));
    laws::lemma_permuted_shape(b, swaps, swaps.len());
    let pb = lu::permuted(b, swaps, swaps.len());
    lemma_factors_solve(lu, pb);
    lemma_factors_multiply_back(g);
    let x = lu::solved(lu, swaps, b);
    lemma_permuted_times(g, x, swaps, swaps.len());
    laws::lemma_permutation_undone(times(g, x), swaps);
    laws::lemma_permutation_undone(b, swaps);
}

} // verus!
