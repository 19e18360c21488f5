//! Factorisation into a lower and an upper triangle, with row exchanges.
use vstd::prelude::*;

use crate::linalg::kernels::is_zero;
use crate::linalg::layout;
use crate::linalg::layout::{grid_of, same_outside, Grid};
use crate::linalg::matrix::{identity, DMatrix};
use crate::linalg::vector::{DVector, DVectorViewMut};
use crate::linalg::view::MatrixViewMut;
use crate::scalar::Real;

verus! {

/// Row exchanges, in the order in which they are done.
#[derive(Clone, Debug)]
pub struct PermutationSequence {
    len: usize,
    ipiv: Vec<(usize, usize)>,
}

impl View for PermutationSequence {
    type V = Seq<(usize, usize)>;

    closed spec fn view(&self) -> Seq<(usize, usize)> {
        self.ipiv@.subrange(0, self.len as int)
    }
}

/// The matrix after the first `k` of the row exchanges `swaps`.
pub open spec fn permuted<T>(g: Grid<T>, swaps: Seq<(usize, usize)>, k: nat) -> Grid<T>
    decreases k,
{
    if k == 0 {
        g
    } else {
        permuted(g, swaps, (k - 1) as nat).swap_rows(
            swaps[k - 1].0 as int,
            swaps[k - 1].1 as int,
            0,
            g.cols.len() as int,
        )
    }
}

/// Whether every exchange is one of rows before `nrows`.
pub open spec fn within(swaps: Seq<(usize, usize)>, nrows: nat) -> bool {
    forall|k: int|
        0 <= k < swaps.len() ==> (#[trigger] swaps[k]).0 < nrows && swaps[k].1 < nrows
}

impl Default for PermutationSequence {
    /// No exchange, and room for none.
    fn default() -> (r: Self)
        ensures
            r.wf(),
            r@ == Seq::<(usize, usize)>::empty(),
            r.capacity() == 0,
    {
        let r = PermutationSequence { len: 0, ipiv: Vec::new() };
        assert(r@ =~= Seq::<(usize, usize)>::empty());
        r
    }
}

impl PermutationSequence {
    /// Whether there is room for the exchanges recorded.
    pub closed spec fn wf(&self) -> bool {
        self.len <= self.ipiv@.len()
    }

    /// The number of exchanges that there is room for.
    pub closed spec fn capacity(&self) -> nat {
        self.ipiv@.len()
    }

    /// No exchange, and room for `n`.
    pub fn identity(n: usize) -> (r: Self)
        ensures
            r.wf(),
            r@ == Seq::<(usize, usize)>::empty(),
            r.capacity() == n,
    {
        let mut ipiv: Vec<(usize, usize)> = Vec::with_capacity(n);
        for i in 0..n
            invariant
                ipiv@.len() == i,
        {
            ipiv.push((0, 0));
        }
        let r = PermutationSequence { len: 0, ipiv };
        assert(r@ =~= Seq::<(usize, usize)>::empty());
        r
    }

    /// Records the exchange of rows `i` and `i2`. Nothing is recorded where they are the same row.
    pub fn append_permutation(&mut self, i: usize, i2: usize)
        requires
            old(self).wf(),
            i != i2 ==> old(self)@.len() < old(self).capacity(),
        ensures
            final(self).wf(),
            final(self).capacity() == old(self).capacity(),
            final(self)@ == (if i != i2 {
                old(self)@.push((i, i2))
            } else {
                old(self)@
            }),
    {
        if i != i2 {
            let room: usize = self.ipiv.len();
            assert(self.len < room);
            self.ipiv[self.len] = (i, i2);
            self.len = self.len + 1;
            assert(self@ =~= old(self)@.push((i, i2)));
        }
    }

    /// Does the exchanges on the rows of `rhs`, in the order in which they were recorded.
    pub fn permute_rows<T: Real>(&self, rhs: &mut MatrixViewMut<'_, T>)
        requires
            self.wf(),
            old(rhs).wf(),
            old(rhs).ncols > 0 ==> within(self@, old(rhs).nrows as nat),
        ensures
            final(rhs).wf(),
            final(rhs).only_entries_changed(old(rhs)),
            final(rhs).grid() == permuted(old(rhs).grid(), self@, self@.len()),
            final(final(rhs).data)@ == final(old(rhs).data)@,
    {
        let ghost before = *rhs;
        let ncols: usize = rhs.ncols;
        for k in 0..self.len
            invariant
                self.wf(),
                rhs.wf(),
                rhs.only_entries_changed(&before),
                rhs.ncols == ncols,
                ncols > 0 ==> within(self@, rhs.nrows as nat),
                rhs.grid() == permuted(before.grid(), self@, k as nat),
                final(rhs.data)@ == final(before.data)@,
        {
            let (i0, i1) = self.ipiv[k];
            assert(self@[k as int] == (i0, i1));
            let ghost g = rhs.grid();
            swap_rows_in(rhs, i0, i1, 0, ncols);
        }
    }

    /// The factor that the exchanges contribute to the determinant: one for an even number of
    /// them, minus one for an odd number.
    pub fn determinant<T: Real>(&self) -> (r: T)
        requires
            self.wf(),
        ensures
            r == sign::<T>(self@.len()),
    {
        if self.len % 2 == 0 {
            T::one()
        } else {
            T::one().neg()
        }
    }
}

/// One for an even number, minus one for an odd one.
pub open spec fn sign<T: Real>(n: nat) -> T {
    if n % 2 == 0 {
        T::one()
    } else {
        T::one().neg()
    }
}

/// Exchanges rows `a` and `b` in the columns from `lo` to before `hi`.
fn swap_rows_in<T: Real>(m: &mut MatrixViewMut<'_, T>, a: usize, b: usize, lo: usize, hi: usize)
    requires
        old(m).wf(),
        lo <= hi <= old(m).ncols,
        lo < hi ==> a < old(m).nrows && b < old(m).nrows,
    ensures
        final(m).wf(),
        final(m).only_entries_changed(old(m)),
        final(m).grid() == old(m).grid().swap_rows(a as int, b as int, lo as int, hi as int),
        final(final(m).data)@ == final(old(m).data)@,
{
    let ghost before = *m;
    let ghost g = before.grid();
    proof {
        layout::lemma_grid_wf(m.data@, m.nrows as nat, m.ncols as nat, m.col_stride as nat);
        layout::lemma_same_entries(g, g.swap_rows(a as int, b as int, lo as int, lo as int));
    }
    for j in lo..hi
        invariant
            m.wf(),
            g.wf(),
            g == before.grid(),
            m.only_entries_changed(&before),
            lo <= j <= hi <= m.ncols,
            lo < hi ==> a < m.nrows && b < m.nrows,
            m.grid() == g.swap_rows(a as int, b as int, lo as int, j as int),
            final(m.data)@ == final(before.data)@,
    {
        let ghost at_hand = m.grid();
        m.swap((a, j), (b, j));
        proof {
            let x = at_hand.at(a as int, j as int);
            let y = at_hand.at(b as int, j as int);
            layout::lemma_set_entries(at_hand, a as int, j as int, y);
            layout::lemma_set_entries(
                at_hand.set(a as int, j as int, y),
                b as int,
                j as int,
                x,
            );
            layout::lemma_same_entries(
                m.grid(),
                g.swap_rows(a as int, b as int, lo as int, j + 1),
            );
        }
    }
}

/// The matrix after one elimination step at `(i, i)`: below the diagonal, column `i` holds the
/// multipliers, and every column to the right has the multiple of its row `i` taken away.
pub open spec fn eliminated<T: Real>(g: Grid<T>, diag: T, i: int) -> Grid<T> {
    let inv_diag = T::one().div(diag);
    Grid::tabulate(
        g.nrows,
        g.cols.len(),
        |r: int, c: int|
            if r <= i || c < i {
                g.at(r, c)
            } else if c == i {
                g.at(r, i).mul(inv_diag)
            } else {
                g.at(i, c).neg().mul(g.at(r, i).mul(inv_diag)).add(g.at(r, c))
            },
    )
}

/// One elimination step at `(i, i)`, where the entry is `diag`.
pub fn gauss_step<T: Real>(matrix: &mut DMatrix<T>, diag: T, i: usize)
    requires
        old(matrix).wf(),
        i < old(matrix).nrows,
        i < old(matrix).ncols,
    ensures
        final(matrix).wf(),
        final(matrix).only_entries_changed(old(matrix)),
        final(matrix).grid() == eliminated(old(matrix).grid(), diag, i as int),
{
    let ghost before = *matrix;
    let ghost g = before.grid();
    let nrows: usize = matrix.nrows;
    let ncols: usize = matrix.ncols;
    let inv_diag = T::one().div(diag);
    proof {
        layout::lemma_grid_wf(
            matrix.data@,
            nrows as nat,
            ncols as nat,
            matrix.col_stride as nat,
        );
    }
    for r in (i + 1)..nrows
        invariant
            matrix.wf(),
            matrix.grid().wf(),
            matrix.only_entries_changed(&before),
            matrix.nrows == nrows,
            matrix.ncols == ncols,
            i < nrows,
            i < ncols,
            i + 1 <= r,
            g == before.grid(),
            forall|a: int, c: int|
                0 <= a < nrows && 0 <= c < ncols ==> #[trigger] matrix.grid().at(a, c) == (if c == i
                    && i < a < r {
                    g.at(a, c).mul(inv_diag)
                } else {
                    g.at(a, c)
                }),
    {
        let v = matrix.get(r, i).mul(inv_diag);
        proof {
            layout::lemma_set_entries(matrix.grid(), r as int, i as int, v);
        }
        *matrix.get_mut(r, i) = v;
    }
    for k in (i + 1)..ncols
        invariant
            matrix.wf(),
            matrix.grid().wf(),
            matrix.only_entries_changed(&before),
            matrix.nrows == nrows,
            matrix.ncols == ncols,
            i < nrows,
            i < ncols,
            i + 1 <= k,
            g == before.grid(),
            inv_diag == T::one().div(diag),
            forall|a: int, c: int|
                0 <= a < nrows && 0 <= c < ncols && c < k ==> #[trigger] matrix.grid().at(a, c)
                    == eliminated(g, diag, i as int).at(a, c),
            forall|a: int, c: int|
                0 <= a < nrows && k <= c < ncols ==> #[trigger] matrix.grid().at(a, c) == g.at(
                    a,
                    c,
                ),
    {
        let pj = matrix.get(i, k);
        for r in (i + 1)..nrows
            invariant
                matrix.wf(),
                matrix.grid().wf(),
                matrix.only_entries_changed(&before),
                matrix.nrows == nrows,
                matrix.ncols == ncols,
                i < nrows,
                i < k < ncols,
                i + 1 <= r,
                g == before.grid(),
                inv_diag == T::one().div(diag),
                pj == g.at(i as int, k as int),
                forall|a: int, c: int|
                    0 <= a < nrows && 0 <= c < ncols && (c < k || (c == k && a < r))
                        ==> #[trigger] matrix.grid().at(a, c) == eliminated(g, diag, i as int).at(
                        a,
                        c,
                    ),
                forall|a: int, c: int|
                    0 <= a < nrows && 0 <= c < ncols && (k < c || (c == k && r <= a))
                        ==> #[trigger] matrix.grid().at(a, c) == g.at(a, c),
        {
            let cr = matrix.get(r, i);
            let cur = matrix.get(r, k);
            let v = pj.neg().mul(cr).add(cur);
            proof {
                assert(cr == eliminated(g, diag, i as int).at(r as int, i as int));
                layout::lemma_set_entries(matrix.grid(), r as int, k as int, v);
            }
            *matrix.get_mut(r, k) = v;
        }
    }
    proof {
        layout::lemma_same_entries(matrix.grid(), eliminated(g, diag, i as int));
    }
}

/// An exchange of rows `i` and `piv` from column `i` on, and one elimination step at `(i, i)`,
/// where the entry is then `diag`.
pub fn gauss_step_swap<T: Real>(matrix: &mut DMatrix<T>, diag: T, i: usize, piv: usize)
    requires
        old(matrix).wf(),
        i < old(matrix).nrows,
        i < old(matrix).ncols,
        piv < old(matrix).nrows,
    ensures
        final(matrix).wf(),
        final(matrix).only_entries_changed(old(matrix)),
        final(matrix).grid() == eliminated(
            old(matrix).grid().swap_rows(
                i as int,
                piv as int,
                i as int,
                old(matrix).ncols as int,
            ),
            diag,
            i as int,
        ),
{
    let ncols: usize = matrix.ncols;
    let mut whole = matrix.whole_mut();
    swap_rows_in(&mut whole, i, piv, i, ncols);
    gauss_step(matrix, diag, i);
}

/// The row of the entry of largest magnitude from row `r0` to before row `k`; the first one where
/// there are several.
pub open spec fn pivot<T: Real>(col: Seq<T>, r0: nat, k: nat) -> nat
    decreases k,
{
    if k <= r0 + 1 {
        r0
    } else {
        let best = pivot(col, r0, (k - 1) as nat);
        if col[best as int].abs().lt(col[k - 1].abs()) {
            (k - 1) as nat
        } else {
            best
        }
    }
}

/// The pivot row is one of the rows searched.
pub proof fn lemma_pivot_in_range<T: Real>(col: Seq<T>, r0: nat, k: nat)
    requires
        r0 < k,
    ensures
        r0 <= pivot(col, r0, k) < k,
    decreases k,
{
    if k > r0 + 1 {
        lemma_pivot_in_range(col, r0, (k - 1) as nat);
    }
}

impl<T: Real> DMatrix<T> {
    /// The row of the entry of largest magnitude in column `j` from row `r0` on; the first one
    /// where there are several.
    fn icamax(&self, r0: usize, j: usize) -> (r: usize)
        requires
            self.wf(),
            r0 < self.nrows,
            j < self.ncols,
        ensures
            r == pivot(self.grid().cols[j as int], r0 as nat, self.nrows as nat),
            r0 <= r < self.nrows,
    {
        let ghost col = self.grid().cols[j as int];
        let mut best_row: usize = r0;
        let mut best = self.get(r0, j).abs();
        for k in (r0 + 1)..self.nrows
            invariant
                self.wf(),
                j < self.ncols,
                r0 < self.nrows,
                r0 + 1 <= k,
                col == self.grid().cols[j as int],
                r0 <= best_row < k,
                best == col[best_row as int].abs(),
                best_row == pivot(col, r0 as nat, k as nat),
        {
            let v = self.get(k, j).abs();
            if best.lt(v) {
                best = v;
                best_row = k;
            }
        }
        best_row
    }
}

/// The state of a factorisation: the matrix so far, and the row exchanges so far.
pub open spec fn lu_step<T: Real>(
    state: (Grid<T>, Seq<(usize, usize)>),
    i: nat,
) -> (Grid<T>, Seq<(usize, usize)>) {
    let (g, swaps) = state;
    let piv = pivot(g.cols[i as int], i, g.nrows);
    let diag = g.at(piv as int, i as int);
    if is_zero(diag) {
        (g, swaps)
    } else if piv != i {
        (
            eliminated(
                g.swap_rows(i as int, piv as int, 0, g.cols.len() as int),
                diag,
                i as int,
            ),
            swaps.push((i as usize, piv as usize)),
        )
    } else {
        (eliminated(g, diag, i as int), swaps)
    }
}

/// The state of the factorisation of `g` after `k` steps.
pub open spec fn lu_steps<T: Real>(g: Grid<T>, k: nat) -> (Grid<T>, Seq<(usize, usize)>)
    decreases k,
{
    if k == 0 {
        (g, Seq::empty())
    } else {
        lu_step(lu_steps(g, (k - 1) as nat), (k - 1) as nat)
    }
}

/// The smaller of the numbers of rows and columns.
pub open spec fn shorter_side<T>(g: Grid<T>) -> nat {
    if g.nrows < g.cols.len() {
        g.nrows
    } else {
        g.cols.len()
    }
}

/// A matrix as the product of row exchanges, a lower triangle with ones on its diagonal, and an
/// upper triangle. Both triangles stand in one matrix.
#[derive(Clone, Debug)]
pub struct LU<T: Real> {
    /// The upper triangle with the diagonal, and below it the lower triangle without its ones.
    pub lu: DMatrix<T>,
    /// The row exchanges.
    pub p: PermutationSequence,
}

impl<T: Real> LU<T> {
    /// Whether the parts fit together.
    pub open spec fn wf(&self) -> bool {
        &&& self.lu.wf()
        &&& self.p.wf()
        &&& within(self.p@, self.lu.nrows as nat)
    }

    /// Factorises `matrix`. In each column the entry of largest magnitude becomes the pivot; a
    /// column without an entry other than zero is passed over.
    pub fn new(matrix: DMatrix<T>) -> (r: Self)
        requires
            matrix.wf(),
        ensures
            r.wf(),
            r.lu.only_entries_changed(&matrix),
            (r.lu.grid(), r.p@) == lu_steps(matrix.grid(), shorter_side(matrix.grid())),
            r.p@.len() <= shorter_side(matrix.grid()),
    {
        let ghost before = matrix;
        let ghost g = matrix.grid();
        let mut matrix = matrix;
        let nrows: usize = matrix.nrows;
        let ncols: usize = matrix.ncols;
        let min_n: usize = if nrows < ncols {
            nrows
        } else {
            ncols
        };
        let mut p = PermutationSequence::identity(min_n);
        for i in 0..min_n
            invariant
                matrix.wf(),
                matrix.only_entries_changed(&before),
                matrix.nrows == nrows,
                matrix.ncols == ncols,
                min_n <= nrows,
                min_n <= ncols,
                p.wf(),
                p.capacity() == min_n,
                p@.len() <= i,
                within(p@, nrows as nat),
                (matrix.grid(), p@) == lu_steps(g, i as nat),
        {
            let ghost at_hand = matrix.grid();
            let ghost swaps = p@;
            let piv: usize = matrix.icamax(i, i);
            let diag = matrix.get(piv, i);
            if !is_zero(diag) {
                if piv != i {
                    p.append_permutation(i, piv);
                    let mut whole = matrix.whole_mut();
                    swap_rows_in(&mut whole, i, piv, 0, i);
                    gauss_step_swap(&mut matrix, diag, i, piv);
                    proof {
                        layout::lemma_same_entries(
                            at_hand.swap_rows(i as int, piv as int, 0, i as int).swap_rows(
                                i as int,
                                piv as int,
                                i as int,
                                ncols as int,
                            ),
                            at_hand.swap_rows(i as int, piv as int, 0, ncols as int),
                        );
                    }
                } else {
                    gauss_step(&mut matrix, diag, i);
                }
            }
        }
        LU { lu: matrix, p }
    }
}

/// The column `x` after row `i` of a lower triangle with `diag` on its diagonal is used: the
/// multiple of that row's unknown is taken away below it.
pub open spec fn lower_step<T: Real>(lu: Grid<T>, diag: T, x: Seq<T>, i: int) -> Seq<T> {
    let coeff = x[i].div(diag);
    Seq::new(
        x.len(),
        |r: int|
            if i < r < lu.nrows {
                x[r].sub(coeff.mul(lu.at(r, i)))
            } else {
                x[r]
            },
    )
}

/// The column `x` after the first `k` rows of a lower triangle are used.
pub open spec fn lower<T: Real>(lu: Grid<T>, diag: T, x: Seq<T>, k: nat) -> Seq<T>
    decreases k,
{
    if k == 0 {
        x
    } else {
        lower_step(lu, diag, lower(lu, diag, x, (k - 1) as nat), k - 1)
    }
}

/// The column `x` after row `i` of an upper triangle is used: the unknown of that row is found,
/// and its multiple taken away above it.
pub open spec fn upper_step<T: Real>(lu: Grid<T>, x: Seq<T>, i: int) -> Seq<T> {
    let coeff = x[i].div(lu.at(i, i));
    Seq::new(
        x.len(),
        |r: int|
            if r < i {
                x[r].sub(coeff.mul(lu.at(r, i)))
            } else if r == i {
                coeff
            } else {
                x[r]
            },
    )
}

/// The column `x` after the rows of an upper triangle from the last one up to row `k` are used.
pub open spec fn upper<T: Real>(lu: Grid<T>, x: Seq<T>, k: nat) -> Seq<T>
    decreases lu.nrows - k,
{
    if k >= lu.nrows {
        x
    } else {
        upper_step(lu, upper(lu, x, k + 1), k as int)
    }
}

/// The first row from which on no diagonal entry before `n` is zero.
pub open spec fn solvable_from<T: Real>(lu: Grid<T>, n: nat) -> nat
    decreases n,
{
    if n == 0 {
        0
    } else if is_zero(lu.at(n - 1, n - 1)) {
        n
    } else {
        solvable_from(lu, (n - 1) as nat)
    }
}

/// Whether no diagonal entry is zero.
pub open spec fn regular<T: Real>(lu: Grid<T>) -> bool {
    forall|i: int| 0 <= i < lu.nrows ==> !is_zero(#[trigger] lu.at(i, i))
}

/// Every diagonal entry from the row found on is different from zero, and the one before it is
/// zero.
pub proof fn lemma_solvable_from<T: Real>(lu: Grid<T>, n: nat)
    ensures
        solvable_from(lu, n) <= n,
        forall|i: int| solvable_from(lu, n) <= i < n ==> !is_zero(#[trigger] lu.at(i, i)),
        solvable_from(lu, n) > 0 ==> is_zero(
            lu.at(solvable_from(lu, n) - 1, solvable_from(lu, n) - 1),
        ),
    decreases n,
{
    if n > 0 && !is_zero(lu.at(n - 1, n - 1)) {
        lemma_solvable_from(lu, (n - 1) as nat);
    }
}

/// What back substitution makes of all columns: each is solved where no diagonal entry is zero.
/// Where one is, the first column is worked on up to the row below it, and the others are left.
pub open spec fn upper_all<T: Real>(lu: Grid<T>, b: Grid<T>) -> Grid<T> {
    let reached = solvable_from(lu, lu.nrows);
    Grid {
        nrows: b.nrows,
        cols: Seq::new(
            b.cols.len(),
            |j: int|
                if j == 0 || reached == 0 {
                    upper(lu, b.cols[j], reached)
                } else {
                    b.cols[j]
                },
        ),
    }
}

/// What forward substitution makes of all columns.
pub open spec fn lower_all<T: Real>(lu: Grid<T>, diag: T, b: Grid<T>) -> Grid<T> {
    Grid {
        nrows: b.nrows,
        cols: Seq::new(
            b.cols.len(),
            |j: int| lower(lu, diag, b.cols[j], (lu.nrows - 1) as nat),
        ),
    }
}

/// Forward substitution in one column.
fn lower_column<T: Real>(lu: &DMatrix<T>, x: &mut [T], diag: T)
    requires
        lu.wf(),
        0 < lu.nrows <= old(x)@.len(),
        lu.nrows - 1 <= lu.ncols,
    ensures
        final(x)@ == lower(lu.grid(), diag, old(x)@, (lu.nrows - 1) as nat),
{
    let ghost before = x@;
    let dim: usize = lu.nrows;
    for i in 0..(dim - 1)
        invariant
            lu.wf(),
            dim == lu.nrows,
            dim - 1 <= lu.ncols,
            0 < dim <= x@.len(),
            x@ == lower(lu.grid(), diag, before, i as nat),
    {
        let ghost at_hand = x@;
        let coeff = x[i].div(diag);
        for r in (i + 1)..dim
            invariant
                lu.wf(),
                dim == lu.nrows,
                i < dim - 1 <= lu.ncols,
                i + 1 <= r,
                dim <= x@.len(),
                x@.len() == at_hand.len(),
                coeff == at_hand[i as int].div(diag),
                forall|k: int|
                    0 <= k < x@.len() ==> #[trigger] x@[k] == (if i < k < r {
                        at_hand[k].sub(coeff.mul(lu.grid().at(k, i as int)))
                    } else {
                        at_hand[k]
                    }),
        {
            let v = x[r].sub(coeff.mul(lu.get(r, i)));
            x[r] = v;
        }
        assert(x@ =~= lower_step(lu.grid(), diag, at_hand, i as int));
    }
}

/// Back substitution in one column, from the last row up to row `reached`.
fn upper_column<T: Real>(lu: &DMatrix<T>, x: &mut [T], reached: usize)
    requires
        lu.wf(),
        lu.nrows <= old(x)@.len(),
        lu.nrows <= lu.ncols,
        reached <= lu.nrows,
    ensures
        final(x)@ == upper(lu.grid(), old(x)@, reached as nat),
{
    let ghost before = x@;
    let mut i: usize = lu.nrows;
    while i > reached
        invariant
            lu.wf(),
            reached <= i <= lu.nrows <= lu.ncols,
            lu.nrows <= x@.len(),
            x@ == upper(lu.grid(), before, i as nat),
        decreases i,
    {
        i = i - 1;
        let ghost at_hand = x@;
        let coeff = x[i].div(lu.get(i, i));
        x[i] = coeff;
        for r in 0..i
            invariant
                lu.wf(),
                i < lu.nrows <= lu.ncols,
                lu.nrows <= x@.len(),
                x@.len() == at_hand.len(),
                forall|k: int|
                    0 <= k < x@.len() ==> #[trigger] x@[k] == (if k < r {
                        at_hand[k].sub(coeff.mul(lu.grid().at(k, i as int)))
                    } else if k == i {
                        coeff
                    } else {
                        at_hand[k]
                    }),
        {
            let v = x[r].sub(coeff.mul(lu.get(r, i)));
            x[r] = v;
        }
        assert(x@ =~= upper_step(lu.grid(), at_hand, i as int));
    }
}

/// The first row from which on no diagonal entry is zero.
fn first_solvable<T: Real>(lu: &DMatrix<T>) -> (r: usize)
    requires
        lu.wf(),
        lu.nrows <= lu.ncols,
    ensures
        r == solvable_from(lu.grid(), lu.nrows as nat),
        r <= lu.nrows,
{
    let mut i: usize = lu.nrows;
    while i > 0
        invariant
            lu.wf(),
            i <= lu.nrows <= lu.ncols,
            solvable_from(lu.grid(), lu.nrows as nat) == solvable_from(lu.grid(), i as nat),
        decreases i,
    {
        if is_zero(lu.get(i - 1, i - 1)) {
            return i;
        }
        i = i - 1;
    }
    0
}

/// Solves the system of the lower triangle of `lu`, with `diag` on its diagonal, for every column
/// of `b` in place. Returns whether `diag` is other than zero; if it is zero nothing is changed.
pub fn solve_lower_triangular_with_diag_mut<T: Real>(
    lu: &DMatrix<T>,
    b: &mut MatrixViewMut<'_, T>,
    diag: T,
) -> (r: bool)
    requires
        lu.wf(),
        old(b).wf(),
        !is_zero(diag) && old(b).ncols > 0 ==> 0 < lu.nrows <= old(b).nrows && lu.nrows - 1
            <= lu.ncols,
    ensures
        r == !is_zero(diag),
        final(b).wf(),
        final(b).only_entries_changed(old(b)),
        final(b).grid() == (if r {
            lower_all(lu.grid(), diag, old(b).grid())
        } else {
            old(b).grid()
        }),
        final(final(b).data)@ == final(old(b).data)@,
{
    if is_zero(diag) {
        return false;
    }
    let ghost before = *b;
    let ghost target = lower_all(lu.grid(), diag, before.grid());
    let cols: usize = b.ncols;
    for k in 0..cols
        invariant
            lu.wf(),
            b.wf(),
            b.only_entries_changed(&before),
            b.ncols == cols,
            cols > 0 ==> 0 < lu.nrows <= b.nrows && lu.nrows - 1 <= lu.ncols,
            target == lower_all(lu.grid(), diag, before.grid()),
            forall|j: int| 0 <= j < k ==> #[trigger] b.grid().cols[j] == target.cols[j],
            forall|j: int| k <= j < cols ==> #[trigger] b.grid().cols[j] == before.grid().cols[j],
            final(b.data)@ == final(before.data)@,
    {
        let col = b.column_mut(k);
        proof {
            lemma_lower_len(lu.grid(), diag, col@, (lu.nrows - 1) as nat);
        }
        lower_column(lu, col.data, diag);
    }
    assert(b.grid().cols =~= target.cols);
    true
}

/// Forward substitution keeps the length of a column.
proof fn lemma_lower_len<T: Real>(lu: Grid<T>, diag: T, x: Seq<T>, k: nat)
    ensures
        lower(lu, diag, x, k).len() == x.len(),
    decreases k,
{
    if k > 0 {
        lemma_lower_len(lu, diag, x, (k - 1) as nat);
    }
}

/// Back substitution keeps the length of a column.
proof fn lemma_upper_len<T: Real>(lu: Grid<T>, x: Seq<T>, k: nat)
    ensures
        upper(lu, x, k).len() == x.len(),
    decreases lu.nrows - k,
{
    if k < lu.nrows {
        lemma_upper_len(lu, x, k + 1);
    }
}

/// Solves the system of the upper triangle of `lu` for every column of `b` in place. Returns
/// whether it could: a zero on the diagonal stops it in the first column.
pub fn solve_upper_triangular_mut<T: Real>(
    lu: &DMatrix<T>,
    b: &mut MatrixViewMut<'_, T>,
) -> (r: bool)
    requires
        lu.wf(),
        old(b).wf(),
        old(b).ncols > 0 ==> lu.nrows <= old(b).nrows && lu.nrows <= lu.ncols,
    ensures
        r == (old(b).ncols == 0 || regular(lu.grid())),
        final(b).wf(),
        final(b).only_entries_changed(old(b)),
        final(b).grid() == upper_all(lu.grid(), old(b).grid()),
        final(final(b).data)@ == final(old(b).data)@,
{
    let ghost before = *b;
    let ghost target = upper_all(lu.grid(), before.grid());
    let cols: usize = b.ncols;
    if cols == 0 {
        assert(b.grid().cols =~= target.cols);
        return true;
    }
    let reached: usize = first_solvable(lu);
    proof {
        lemma_solvable_from(lu.grid(), lu.nrows as nat);
        if reached > 0 {
            assert(is_zero(lu.grid().at(reached - 1, reached - 1)));
        }
    }
    if reached > 0 {
        let col = b.column_mut(0);
        proof {
            lemma_upper_len(lu.grid(), col@, reached as nat);
        }
        upper_column(lu, col.data, reached);
        assert(b.grid().cols =~= target.cols);
        return false;
    }
    for k in 0..cols
        invariant
            lu.wf(),
            b.wf(),
            b.only_entries_changed(&before),
            b.ncols == cols,
            lu.nrows <= b.nrows,
            lu.nrows <= lu.ncols,
            solvable_from(lu.grid(), lu.nrows as nat) == 0,
            target == upper_all(lu.grid(), before.grid()),
            forall|j: int| 0 <= j < k ==> #[trigger] b.grid().cols[j] == target.cols[j],
            forall|j: int| k <= j < cols ==> #[trigger] b.grid().cols[j] == before.grid().cols[j],
            final(b.data)@ == final(before.data)@,
    {
        let col = b.column_mut(k);
        proof {
            lemma_upper_len(lu.grid(), col@, 0);
        }
        upper_column(lu, col.data, 0);
    }
    assert(b.grid().cols =~= target.cols);
    true
}

/// A right-hand side that a factorisation can be solved for in place.
pub trait SolveTarget<T: Real> {
    /// Whether the parts fit together.
    spec fn target_valid(&self) -> bool;

    /// The number of rows.
    spec fn target_rows(&self) -> usize;

    /// The number of columns.
    spec fn target_cols(&self) -> usize;

    /// The distance between the starts of two neighbouring columns.
    spec fn target_stride(&self) -> usize;

    /// The storage.
    spec fn target_storage(&self) -> Seq<T>;

    /// The whole as a view, open to change.
    fn as_view_mut(&mut self) -> (r: MatrixViewMut<'_, T>)
        requires
            old(self).target_valid(),
        ensures
            r.wf(),
            r.data@ == old(self).target_storage(),
            r.nrows == old(self).target_rows(),
            r.ncols == old(self).target_cols(),
            r.col_stride == old(self).target_stride(),
            final(r.data)@.len() == r.data@.len() ==> {
                &&& final(self).target_valid()
                &&& final(self).target_storage() == final(r.data)@
                &&& final(self).target_rows() == r.nrows
                &&& final(self).target_cols() == r.ncols
                &&& final(self).target_stride() == r.col_stride
            },
    ;
}

/// The matrix that a right-hand side holds.
pub open spec fn target_grid<T: Real, B: SolveTarget<T>>(b: &B) -> Grid<T> {
    grid_of(
        b.target_storage(),
        b.target_rows() as nat,
        b.target_cols() as nat,
        b.target_stride() as nat,
    )
}

impl<T: Real> SolveTarget<T> for DMatrix<T> {
    open spec fn target_valid(&self) -> bool {
        self.wf()
    }

    open spec fn target_rows(&self) -> usize {
        self.nrows
    }

    open spec fn target_cols(&self) -> usize {
        self.ncols
    }

    open spec fn target_stride(&self) -> usize {
        self.col_stride
    }

    open spec fn target_storage(&self) -> Seq<T> {
        self.data@
    }

    fn as_view_mut(&mut self) -> (r: MatrixViewMut<'_, T>) {
        self.whole_mut()
    }
}

impl<T: Real> SolveTarget<T> for DVector<T> {
    open spec fn target_valid(&self) -> bool {
        true
    }

    open spec fn target_rows(&self) -> usize {
        self.data.len()
    }

    open spec fn target_cols(&self) -> usize {
        1
    }

    open spec fn target_stride(&self) -> usize {
        self.data.len()
    }

    open spec fn target_storage(&self) -> Seq<T> {
        self.data@
    }

    fn as_view_mut(&mut self) -> (r: MatrixViewMut<'_, T>) {
        let n: usize = self.data.len();
        MatrixViewMut { data: self.data.as_mut_slice(), nrows: n, ncols: 1, col_stride: n }
    }
}

impl<'a, T: Real> SolveTarget<T> for DVectorViewMut<'a, T> {
    open spec fn target_valid(&self) -> bool {
        true
    }

    open spec fn target_rows(&self) -> usize {
        self.data@.len() as usize
    }

    open spec fn target_cols(&self) -> usize {
        1
    }

    open spec fn target_stride(&self) -> usize {
        self.data@.len() as usize
    }

    open spec fn target_storage(&self) -> Seq<T> {
        self.data@
    }

    fn as_view_mut(&mut self) -> (r: MatrixViewMut<'_, T>) {
        let n: usize = self.data.len();
        MatrixViewMut { data: self.data, nrows: n, ncols: 1, col_stride: n }
    }
}

impl<'a, T: Real> SolveTarget<T> for MatrixViewMut<'a, T> {
    open spec fn target_valid(&self) -> bool {
        self.wf()
    }

    open spec fn target_rows(&self) -> usize {
        self.nrows
    }

    open spec fn target_cols(&self) -> usize {
        self.ncols
    }

    open spec fn target_stride(&self) -> usize {
        self.col_stride
    }

    open spec fn target_storage(&self) -> Seq<T> {
        self.data@
    }

    fn as_view_mut(&mut self) -> (r: MatrixViewMut<'_, T>) {
        MatrixViewMut {
            data: self.data,
            nrows: self.nrows,
            ncols: self.ncols,
            col_stride: self.col_stride,
        }
    }
}

/// What solving makes of the right-hand sides `b`: the row exchanges, forward substitution with
/// ones on the diagonal, back substitution.
pub open spec fn solved<T: Real>(lu: Grid<T>, swaps: Seq<(usize, usize)>, b: Grid<T>) -> Grid<T> {
    upper_all(lu, lower_all(lu, T::one(), permuted(b, swaps, swaps.len())))
}

/// The product of the first `k` diagonal entries.
pub open spec fn diagonal_product<T: Real>(lu: Grid<T>, k: nat) -> T
    decreases k,
{
    if k == 0 {
        T::one()
    } else {
        diagonal_product(lu, (k - 1) as nat).mul(lu.at(k - 1, k - 1))
    }
}

impl<T: Real> LU<T> {
    /// Solves the system of the factorised matrix for every column of `b` in place. Returns
    /// whether the matrix could be inverted.
    pub fn solve_view_mut(&self, b: &mut MatrixViewMut<'_, T>) -> (r: bool)
        requires
            self.wf(),
            self.lu.nrows == self.lu.ncols,
            old(b).wf(),
            old(b).nrows == self.lu.nrows,
            old(b).ncols > 0 ==> self.lu.nrows > 0,
        ensures
            r == (old(b).ncols == 0 || regular(self.lu.grid())),
            final(b).wf(),
            final(b).only_entries_changed(old(b)),
            final(b).grid() == solved(self.lu.grid(), self.p@, old(b).grid()),
            final(final(b).data)@ == final(old(b).data)@,
    {
        proof {
            T::law_zero_one();
        }
        self.p.permute_rows(b);
        let _ = solve_lower_triangular_with_diag_mut(&self.lu, b, T::one());
        solve_upper_triangular_mut(&self.lu, b)
    }

    /// Solves the system of the factorised matrix for `b` in place. Returns whether the matrix
    /// could be inverted.
    pub fn solve_mut<B: SolveTarget<T>>(&self, b: &mut B) -> (r: bool)
        requires
            self.wf(),
            self.lu.nrows == self.lu.ncols,
            old(b).target_valid(),
            old(b).target_rows() == self.lu.nrows,
            old(b).target_cols() > 0 ==> self.lu.nrows > 0,
        ensures
            r == (old(b).target_cols() == 0 || regular(self.lu.grid())),
            final(b).target_valid(),
            final(b).target_rows() == old(b).target_rows(),
            final(b).target_cols() == old(b).target_cols(),
            final(b).target_stride() == old(b).target_stride(),
            target_grid(final(b)) == solved(self.lu.grid(), self.p@, target_grid(old(b))),
            same_outside(
                old(b).target_storage(),
                final(b).target_storage(),
                old(b).target_rows() as nat,
                old(b).target_cols() as nat,
                old(b).target_stride() as nat,
            ),
    {
        let mut view = b.as_view_mut();
        self.solve_view_mut(&mut view)
    }

    /// The solution for the right-hand sides `b`, or nothing if the matrix cannot be inverted.
    pub fn solve(&self, b: &DMatrix<T>) -> (r: Option<DMatrix<T>>)
        requires
            self.wf(),
            self.lu.nrows == self.lu.ncols,
            b.wf(),
            b.nrows == self.lu.nrows,
            b.ncols > 0 ==> self.lu.nrows > 0,
        ensures
            r is Some == (b.ncols == 0 || regular(self.lu.grid())),
            r is Some ==> r->0.wf() && r->0.only_entries_changed(b) && r->0.grid() == solved(
                self.lu.grid(),
                self.p@,
                b.grid(),
            ),
    {
        let mut res = b.clone_owned();
        if self.solve_mut(&mut res) {
            Some(res)
        } else {
            None
        }
    }

    /// The inverse of the factorised matrix, or nothing if there is none.
    pub fn try_inverse(&self) -> (r: Option<DMatrix<T>>)
        requires
            self.wf(),
            self.lu.nrows == self.lu.ncols,
            self.lu.nrows * self.lu.nrows <= usize::MAX,
        ensures
            r is Some == regular(self.lu.grid()),
            r is Some ==> r->0.compact() && r->0.grid() == solved(
                self.lu.grid(),
                self.p@,
                identity(self.lu.nrows as nat, self.lu.nrows as nat),
            ),
    {
        let dim: usize = self.lu.nrows;
        let mut res = DMatrix::zeros(dim, dim);
        if self.try_inverse_to(&mut res) {
            Some(res)
        } else {
            None
        }
    }

    /// Sets `out` to the inverse of the factorised matrix. Returns whether there is one.
    pub fn try_inverse_to(&self, out: &mut DMatrix<T>) -> (r: bool)
        requires
            self.wf(),
            self.lu.nrows == self.lu.ncols,
            old(out).wf(),
            old(out).nrows == self.lu.nrows,
            old(out).ncols == self.lu.nrows,
        ensures
            r == regular(self.lu.grid()),
            final(out).wf(),
            final(out).same_shape(old(out)),
            final(out).data@.len() == old(out).data@.len(),
            final(out).grid() == solved(
                self.lu.grid(),
                self.p@,
                identity(self.lu.nrows as nat, self.lu.nrows as nat),
            ),
            same_outside(
                Seq::new(old(out).data@.len(), |p: int| T::zero()),
                final(out).data@,
                old(out).nrows as nat,
                old(out).ncols as nat,
                old(out).col_stride as nat,
            ),
    {
        out.fill_with_identity();
        self.solve_mut(out)
    }

    /// The determinant of the factorised matrix.
    pub fn to_determinant(&self) -> (r: T)
        requires
            self.wf(),
            self.lu.nrows == self.lu.ncols,
        ensures
            r == diagonal_product(self.lu.grid(), self.lu.nrows as nat).mul(sign(self.p@.len())),
    {
        let dim: usize = self.lu.nrows;
        let mut res = T::one();
        for i in 0..dim
            invariant
                self.wf(),
                dim == self.lu.nrows,
                dim == self.lu.ncols,
                res == diagonal_product(self.lu.grid(), i as nat),
        {
            res = res.mul(self.lu.get(i, i));
        }
        res.mul(self.p.determinant())
    }
}

} // verus!
