//! Two groups of rows of one matrix, open to change at the same time.
use vstd::prelude::*;
use crate::linalg::layout;
use crate::linalg::layout::Grid;
use crate::linalg::vector::DVectorViewMut;
use crate::linalg::view::MatrixView;
use crate::scalar::Real;

verus! {

/// Some rows of a matrix, open to change. The rows of several columns take turns in the storage
/// with other rows, so each column is lent out on its own.
#[derive(Debug)]
pub struct RowsViewMut<'a, T: Real> {
    /// The viewed part of each column.
    pub columns: Vec<&'a mut [T]>,
    /// The number of rows.
    pub nrows: usize,
}

impl<'a, T: Real> RowsViewMut<'a, T> {
    /// The viewed rows.
    pub open spec fn grid(&self) -> Grid<T> {
        Grid {
            nrows: self.nrows as nat,
            cols: Seq::new(self.columns@.len(), |j: int| self.columns@[j]@),
        }
    }

    /// Whether every column has as many entries as there are rows.
    pub open spec fn wf(&self) -> bool {
        self.grid().wf()
    }

    /// The number of rows.
    pub fn nrows(&self) -> (r: usize)
        ensures
            r == self.grid().nrows,
    {
        self.nrows
    }

    /// The number of columns.
    pub fn ncols(&self) -> (r: usize)
        ensures
            r == self.grid().cols.len(),
    {
        self.columns.len()
    }

    /// Entry `(i, j)`.
    pub fn get(&self, i: usize, j: usize) -> (r: T)
        requires
            self.wf(),
            i < self.nrows,
            j < self.columns@.len(),
        ensures
            r == self.grid().at(i as int, j as int),
    {
        assert(self.grid().cols[j as int].len() == self.nrows);
        self.columns[j][i]
    }

    /// Column `j`, open to change.
    pub fn column_mut(&mut self, j: usize) -> (r: DVectorViewMut<'_, T>)
        requires
            j < old(self).columns@.len(),
        ensures
            r@ == old(self).grid().cols[j as int],
            final(self).nrows == old(self).nrows,
            final(self).grid() == (Grid {
                cols: old(self).grid().cols.update(j as int, final(r.data)@),
                ..old(self).grid()
            }),
            final(self).columns@.len() == old(self).columns@.len(),
            forall|k: int|
                #![trigger final(self).columns@[k]]
                0 <= k < old(self).columns@.len() ==> final(final(self).columns@[k])@ == final(old(self).columns@[k])@,
    {
        DVectorViewMut { data: &mut *self.columns[j] }
    }

    /// Sets every entry of the viewed rows to `value`.
    pub fn fill(&mut self, value: T)
        requires
            old(self).wf(),
        ensures
            final(self).grid() == Grid::tabulate(
                old(self).nrows as nat,
                old(self).columns@.len(),
                |i: int, j: int| value,
            ),
            final(self).columns@.len() == old(self).columns@.len(),
            forall|k: int|
                #![trigger final(self).columns@[k]]
                0 <= k < old(self).columns@.len() ==> final(final(self).columns@[k])@ == final(old(self).columns@[k])@,
    {
        let ghost before = *self;
        let n: usize = self.columns.len();
        for j in 0..n
            invariant
                before.wf(),
                n == self.columns@.len(),
                n == before.columns@.len(),
                self.nrows == before.nrows,
                forall|k: int|
                    0 <= k < j ==> #[trigger] self.grid().cols[k] == Seq::new(
                        before.nrows as nat,
                        |i: int| value,
                    ),
                forall|k: int|
                    j <= k < n ==> #[trigger] self.grid().cols[k] == before.grid().cols[k],
                forall|k: int|
                    #![trigger self.columns@[k]]
                    0 <= k < n ==> final(self.columns@[k])@ == final(before.columns@[k])@,
        {
            assert(before.grid().cols[j as int].len() == before.nrows);
            let mut column = self.column_mut(j);
            column.fill(value);
        }
        let ghost all = Grid::tabulate(before.nrows as nat, n as nat, |i: int, j: int| value);
        assert forall|k: int| 0 <= k < n implies self.grid().cols[k] == all.cols[k] by {
            assert(self.grid().cols[k] =~= all.cols[k]);
        }
        assert(self.grid().cols =~= all.cols);
    }

    /// Takes over the entries of `other`, which has the same shape.
    pub fn copy_from(&mut self, other: &MatrixView<'_, T>)
        requires
            old(self).wf(),
            other.wf(),
            old(self).nrows == other.nrows,
            old(self).columns@.len() == other.ncols,
        ensures
            final(self).grid() == other.grid(),
            final(self).nrows == old(self).nrows,
            final(self).columns@.len() == old(self).columns@.len(),
            forall|k: int|
                #![trigger final(self).columns@[k]]
                0 <= k < old(self).columns@.len() ==> final(final(self).columns@[k])@ == final(old(self).columns@[k])@,
    {
        let ghost before = *self;
        let n: usize = self.columns.len();
        for j in 0..n
            invariant
                before.wf(),
                other.wf(),
                n == self.columns@.len(),
                n == before.columns@.len(),
                n == other.ncols,
                before.nrows == other.nrows,
                self.nrows == before.nrows,
                forall|k: int|
                    0 <= k < j ==> #[trigger] self.grid().cols[k] == other.grid().cols[k],
                forall|k: int|
                    j <= k < n ==> #[trigger] self.grid().cols[k] == before.grid().cols[k],
                forall|k: int|
                    #![trigger self.columns@[k]]
                    0 <= k < n ==> final(self.columns@[k])@ == final(before.columns@[k])@,
        {
            assert(before.grid().cols[j as int].len() == before.nrows);
            let source = other.column(j);
            let mut column = self.column_mut(j);
            column.copy_from(&source);
        }
        assert(self.grid().cols =~= other.grid().cols);
    }
}

/// The first `n` columns of `stride` entries, the beginning of each replaced by what stands in
/// `upper` and `lower`, which take the place of `height` entries.
pub open spec fn joined<T>(
    before: Seq<T>,
    upper: Seq<Seq<T>>,
    lower: Seq<Seq<T>>,
    height: nat,
    stride: nat,
    n: nat,
) -> Seq<T>
    decreases n,
{
    if n == 0 {
        before
    } else {
        let from = (n - 1) * stride;
        joined(before.subrange(0, from), upper, lower, height, stride, (n - 1) as nat)
            + upper[n - 1] + lower[n - 1] + before.subrange(from + height, before.len() as int)
    }
}

/// Whether every sequence has the given length.
pub open spec fn all_of_len<T>(s: Seq<Seq<T>>, len: nat) -> bool {
    forall|j: int| 0 <= j < s.len() ==> (#[trigger] s[j]).len() == len
}

/// A matrix with its first rows replaced by those in `upper` and the ones after them by those in
/// `lower`.
pub open spec fn with_rows<T>(g: Grid<T>, upper: Seq<Seq<T>>, lower: Seq<Seq<T>>, n0: nat, n1: nat)
    -> Grid<T> {
    Grid::tabulate(
        g.nrows,
        g.cols.len(),
        |i: int, j: int|
            if i < n0 {
                upper[j][i]
            } else if i < n0 + n1 {
                lower[j][i - n0]
            } else {
                g.at(i, j)
            },
    )
}

proof fn lemma_joined_entry<T>(
    before: Seq<T>,
    upper: Seq<Seq<T>>,
    lower: Seq<Seq<T>>,
    n0: nat,
    n1: nat,
    stride: nat,
    n: nat,
    j: int,
    i: int,
)
    requires
        n <= upper.len(),
        n <= lower.len(),
        all_of_len(upper, n0),
        all_of_len(lower, n1),
        n0 + n1 <= stride,
        n > 0 ==> (n - 1) * stride + n0 + n1 <= before.len(),
    ensures
        joined(before, upper, lower, n0 + n1, stride, n).len() == before.len(),
        0 <= j < n && 0 <= i < stride && j * stride + i < before.len() ==> joined(
            before,
            upper,
            lower,
            n0 + n1,
            stride,
            n,
        )[j * stride + i] == (if i < n0 {
            upper[j][i]
        } else if i < n0 + n1 {
            lower[j][i - n0]
        } else {
            before[j * stride + i]
        }),
    decreases n,
{
    if n > 0 {
        let from = (n - 1) * stride;
        assert(0 <= from) by (nonlinear_arith)
            requires
                from == (n - 1) * stride,
                n > 0,
        ;
        if n > 1 {
            assert((n - 2) * stride + stride == (n - 1) * stride) by (nonlinear_arith);
        }
        let first = before.subrange(0, from);
        lemma_joined_entry(first, upper, lower, n0, n1, stride, (n - 1) as nat, j, i);
        assert(upper[n - 1].len() == n0 && lower[n - 1].len() == n1);
        if 0 <= j < n - 1 && 0 <= i < stride {
            lemma_column_within(j, stride, n);
        }
    }
}

/// What stands in the storage once the parts of the columns were written, as a matrix.
pub(crate) proof fn lemma_joined_grid<T>(
    before: Seq<T>,
    upper: Seq<Seq<T>>,
    lower: Seq<Seq<T>>,
    n0: nat,
    n1: nat,
    nrows: nat,
    ncols: nat,
    stride: nat,
)
    requires
        layout::fits(before.len(), nrows, ncols, stride),
        n0 + n1 <= nrows,
        upper.len() == ncols,
        lower.len() == ncols,
    ensures
        all_of_len(upper, n0) && all_of_len(lower, n1) ==> {
            let after = joined(before, upper, lower, n0 + n1, stride, ncols);
            &&& after.len() == before.len()
            &&& layout::grid_of(after, nrows, ncols, stride) == with_rows(
                layout::grid_of(before, nrows, ncols, stride),
                upper,
                lower,
                n0,
                n1,
            )
        },
{
    if all_of_len(upper, n0) && all_of_len(lower, n1) {
        lemma_joined_grid_of_parts(before, upper, lower, n0, n1, nrows, ncols, stride);
    }
}

proof fn lemma_joined_grid_of_parts<T>(
    before: Seq<T>,
    upper: Seq<Seq<T>>,
    lower: Seq<Seq<T>>,
    n0: nat,
    n1: nat,
    nrows: nat,
    ncols: nat,
    stride: nat,
)
    requires
        layout::fits(before.len(), nrows, ncols, stride),
        n0 + n1 <= nrows,
        upper.len() == ncols,
        lower.len() == ncols,
        all_of_len(upper, n0),
        all_of_len(lower, n1),
    ensures
        ({
            let after = joined(before, upper, lower, n0 + n1, stride, ncols);
            &&& after.len() == before.len()
            &&& layout::grid_of(after, nrows, ncols, stride) == with_rows(
                layout::grid_of(before, nrows, ncols, stride),
                upper,
                lower,
                n0,
                n1,
            )
        }),
{
    let after = joined(before, upper, lower, n0 + n1, stride, ncols);
    let g = layout::grid_of(after, nrows, ncols, stride);
    let old_grid = layout::grid_of(before, nrows, ncols, stride);
    let h = with_rows(old_grid, upper, lower, n0, n1);
    lemma_joined_entry(before, upper, lower, n0, n1, stride, ncols, 0, 0);
    layout::lemma_grid_wf(after, nrows, ncols, stride);
    assert forall|i: int, j: int|
        0 <= i < g.nrows && 0 <= j < g.cols.len() implies #[trigger] g.at(i, j) == h.at(i, j) by {
        layout::lemma_position(i, j, before.len(), nrows, ncols, stride);
        layout::lemma_grid_at(after, nrows, ncols, stride, i, j);
        layout::lemma_grid_at(before, nrows, ncols, stride, i, j);
        lemma_joined_entry(before, upper, lower, n0, n1, stride, ncols, j, i);
    }
    layout::lemma_same_entries(g, h);
}

proof fn lemma_joined_prefix<T>(
    before: Seq<T>,
    upper: Seq<Seq<T>>,
    lower: Seq<Seq<T>>,
    more_upper: Seq<Seq<T>>,
    more_lower: Seq<Seq<T>>,
    height: nat,
    stride: nat,
    n: nat,
)
    requires
        forall|j: int| 0 <= j < n ==> upper[j] == more_upper[j] && lower[j] == more_lower[j],
    ensures
        joined(before, upper, lower, height, stride, n) == joined(
            before,
            more_upper,
            more_lower,
            height,
            stride,
            n,
        ),
    decreases n,
{
    if n > 0 {
        lemma_joined_prefix(
            before.subrange(0, (n - 1) * stride),
            upper,
            lower,
            more_upper,
            more_lower,
            height,
            stride,
            (n - 1) as nat,
        );
    }
}

proof fn lemma_column_within(j: int, stride: nat, ncols: nat)
    ensures
        0 <= j ==> 0 <= j * stride,
        0 <= j < ncols - 1 ==> j * stride + stride <= (ncols - 1) * stride,
{
    if 0 <= j {
        assert(0 <= j * stride) by (nonlinear_arith)
            requires
                0 <= j,
        ;
    }
    if 0 <= j < ncols - 1 {
        assert(j * stride + stride <= (ncols - 1) * stride) by (nonlinear_arith)
            requires
                j + 1 <= ncols - 1,
        ;
    }
}

/// Splits the first `n0` entries of each of `ncols` columns from the `n1` entries after them.
pub(crate) fn split_rows<'a, T>(
    data: &'a mut [T],
    n0: usize,
    n1: usize,
    ncols: usize,
    stride: usize,
) -> (r: (Vec<&'a mut [T]>, Vec<&'a mut [T]>))
    requires
        n0 + n1 <= stride,
        ncols > 0 ==> (ncols - 1) * stride + n0 + n1 <= old(data)@.len(),
    ensures
        r.0@.len() == ncols,
        r.1@.len() == ncols,
        forall|j: int|
            #![trigger r.0@[j]]
            0 <= j < ncols ==> r.0@[j]@ == old(data)@.subrange(j * stride, j * stride + n0),
        forall|j: int|
            #![trigger r.1@[j]]
            0 <= j < ncols ==> r.1@[j]@ == old(data)@.subrange(
                j * stride + n0,
                j * stride + n0 + n1,
            ),
        final(data)@ == joined(
            old(data)@,
            Seq::new(ncols as nat, |j: int| final(r.0@[j])@),
            Seq::new(ncols as nat, |j: int| final(r.1@[j])@),
            (n0 + n1) as nat,
            stride as nat,
            ncols as nat,
        ),
    decreases ncols,
{
    if ncols == 0 {
        return (Vec::new(), Vec::new());
    }
    let ghost before = data@;
    let len: usize = data.len();
    assert(0 <= (ncols - 1) * stride <= len) by (nonlinear_arith)
        requires
            ncols > 0,
            0 <= stride,
            (ncols - 1) * stride + n0 + n1 <= len,
            0 <= n0,
            0 <= n1,
    ;
    let from: usize = (ncols - 1) * stride;
    let (front, last) = data.split_at_mut(from);
    let (top, rest) = last.split_at_mut(n0);
    let (bottom, _) = rest.split_at_mut(n1);
    proof {
        if ncols > 1 {
            assert((ncols - 2) * stride + stride == (ncols - 1) * stride) by (nonlinear_arith);
        }
    }
    let (mut upper, mut lower) = split_rows(front, n0, n1, ncols - 1, stride);
    let ghost (up, low) = (upper@, lower@);
    let ghost up_after = Seq::new((ncols - 1) as nat, |j: int| final(up[j])@);
    let ghost low_after = Seq::new((ncols - 1) as nat, |j: int| final(low[j])@);
    upper.push(top);
    lower.push(bottom);
    proof {
        let first = before.subrange(0, from as int);
        assert forall|j: int| #![trigger upper@[j]] 0 <= j < ncols implies upper@[j]@
            == before.subrange(j * stride, j * stride + n0) by {
            lemma_column_within(j, stride as nat, ncols as nat);
            if j < ncols - 1 {
                assert(upper@[j] == up[j]);
                assert(first.subrange(j * stride, j * stride + n0) =~= before.subrange(
                    j * stride,
                    j * stride + n0,
                ));
            } else {
                assert(upper@[j]@ =~= before.subrange(from as int, from + n0));
            }
        }
        assert forall|j: int| #![trigger lower@[j]] 0 <= j < ncols implies lower@[j]@
            == before.subrange(j * stride + n0, j * stride + n0 + n1) by {
            lemma_column_within(j, stride as nat, ncols as nat);
            if j < ncols - 1 {
                assert(lower@[j] == low[j]);
                assert(first.subrange(j * stride + n0, j * stride + n0 + n1) =~= before.subrange(
                    j * stride + n0,
                    j * stride + n0 + n1,
                ));
            } else {
                assert(lower@[j]@ =~= before.subrange(from + n0, from + n0 + n1));
            }
        }
        lemma_joined_prefix(
            first,
            up_after,
            low_after,
            Seq::new(ncols as nat, |j: int| final(upper@[j])@),
            Seq::new(ncols as nat, |j: int| final(lower@[j])@),
            (n0 + n1) as nat,
            stride as nat,
            (ncols - 1) as nat,
        );
    }
    (upper, lower)
}

} // verus!
