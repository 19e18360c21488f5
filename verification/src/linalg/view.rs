//! Views of matrices and of blocks of matrices.
use vstd::prelude::*;
use vstd::slice::slice_subrange;
use vstd::slice::slice_to_vec;

use crate::linalg::layout;
use crate::linalg::layout::{fits, grid_of, same_outside, Grid};
use crate::linalg::matrix::DMatrix;
use crate::linalg::vector::{DVector, DVectorView, DVectorViewMut};
use crate::scalar::Real;

verus! {

/// The position of entry `(i, j)` in a slice of `len` entries.
pub(crate) fn position(
    i: usize,
    j: usize,
    len: usize,
    nrows: usize,
    ncols: usize,
    stride: usize,
) -> (r: usize)
    requires
        fits(len as nat, nrows as nat, ncols as nat, stride as nat),
        i < nrows,
        j < ncols,
    ensures
        r == j * stride + i,
        r < len,
{
    proof {
        layout::lemma_position(
            i as int,
            j as int,
            len as nat,
            nrows as nat,
            ncols as nat,
            stride as nat,
        );
    }
    j * stride + i
}

/// The first position of column `j` in a slice of `len` entries.
pub(crate) fn column_start(
    j: usize,
    len: usize,
    nrows: usize,
    ncols: usize,
    stride: usize,
) -> (r: usize)
    requires
        fits(len as nat, nrows as nat, ncols as nat, stride as nat),
        j < ncols,
    ensures
        r == j * stride,
        r + nrows <= len,
{
    proof {
        layout::lemma_column_start(j as int, len as nat, nrows as nat, ncols as nat, stride as nat);
    }
    j * stride
}

/// The entries of `data` from `from` to before `to`, open to change.
pub(crate) fn part_mut<'a, T>(data: &'a mut [T], from: usize, to: usize) -> (r: &'a mut [T])
    requires
        from <= to <= old(data)@.len(),
    ensures
        r@ == old(data)@.subrange(from as int, to as int),
        final(data)@ == old(data)@.subrange(0, from as int) + final(r)@ + old(data)@.subrange(
            to as int,
            old(data)@.len() as int,
        ),
{
    let (_, rest) = data.split_at_mut(from);
    let (middle, _) = rest.split_at_mut(to - from);
    middle
}

/// The length of the slice from the first entry of a block to its last one.
pub(crate) fn span(nr: usize, nc: usize, stride: usize, limit: usize) -> (r: usize)
    requires
        nc > 0,
        (nc - 1) * stride + nr <= limit,
    ensures
        r == (nc - 1) * stride + nr,
{
    proof {
        assert(0 <= (nc - 1) * stride) by (nonlinear_arith)
            requires
                nc > 0,
                0 <= stride,
        ;
    }
    (nc - 1) * stride + nr
}

/// A view of a matrix, or of a block of one.
#[derive(Clone, Copy, Debug)]
pub struct MatrixView<'a, T: Real> {
    /// The slice that holds the entries.
    pub data: &'a [T],
    /// The number of rows.
    pub nrows: usize,
    /// The number of columns.
    pub ncols: usize,
    /// The distance between the starts of two neighbouring columns.
    pub col_stride: usize,
}

impl<'a, T: Real> MatrixView<'a, T> {
    /// The viewed matrix.
    pub open spec fn grid(&self) -> Grid<T> {
        grid_of(self.data@, self.nrows as nat, self.ncols as nat, self.col_stride as nat)
    }

    /// Whether the slice holds every entry, and no two columns overlap.
    pub open spec fn wf(&self) -> bool {
        fits(self.data@.len(), self.nrows as nat, self.ncols as nat, self.col_stride as nat)
    }

    /// The number of rows.
    pub fn nrows(&self) -> (r: usize)
        ensures
            r == self.grid().nrows,
    {
        self.nrows
    }

    /// The number of columns.
    pub fn ncols(&self) -> (r: usize)
        ensures
            r == self.grid().cols.len(),
    {
        self.ncols
    }

    /// A copy of column `j`.
    pub fn column(&self, j: usize) -> (r: DVector<T>)
        requires
            self.wf(),
            j < self.ncols,
        ensures
            r@ == self.grid().cols[j as int],
            r@.len() == self.nrows,
    {
        let start: usize = column_start(
            j,
            self.data.len(),
            self.nrows,
            self.ncols,
            self.col_stride,
        );
        DVector { data: slice_to_vec(slice_subrange(self.data, start, start + self.nrows)) }
    }

    /// A view of the `len` rows from `first` on of the first column.
    pub fn rows(&self, first: usize, len: usize) -> (r: DVectorView<'_, T>)
        requires
            first + len <= self.data@.len(),
        ensures
            r@ == self.data@.subrange(first as int, first + len),
            self.wf() && self.ncols > 0 && first + len <= self.nrows ==> r@
                == self.grid().cols[0].subrange(first as int, first + len),
    {
        let available: usize = self.data.len();
        assert(first + len <= available);
        proof {
            if self.wf() && self.ncols > 0 && first + len <= self.nrows {
                layout::lemma_column_start(
                    0,
                    self.data@.len(),
                    self.nrows as nat,
                    self.ncols as nat,
                    self.col_stride as nat,
                );
                assert(self.data@.subrange(0, self.nrows as int).subrange(
                    first as int,
                    first + len,
                ) =~= self.data@.subrange(first as int, first + len));
            }
        }
        DVectorView { data: slice_subrange(self.data, first, first + len) }
    }

    /// A view of the `L` rows from `first` on.
    pub fn fixed_rows<const L: usize>(&self, first: usize) -> (r: MatrixView<'_, T>)
        requires
            self.wf(),
            self.ncols > 0,
            first + L <= self.nrows,
        ensures
            r.wf(),
            r.grid() == self.grid().block(first as int, 0, L as nat, self.ncols as nat),
            r.nrows == L,
            r.ncols == self.ncols,
            r.col_stride == self.col_stride,
            r.data@ == self.data@.subrange(
                first as int,
                first + L + (self.ncols - 1) * self.col_stride,
            ),
    {
        let len: usize = span(L, self.ncols, self.col_stride, self.data.len());
        proof {
            layout::lemma_block(
                self.data@,
                self.nrows as nat,
                self.ncols as nat,
                self.col_stride as nat,
                first as int,
                0,
                L as nat,
                self.ncols as nat,
                len as nat,
            );
        }
        MatrixView {
            data: slice_subrange(self.data, first, first + len),
            nrows: L,
            ncols: self.ncols,
            col_stride: self.col_stride,
        }
    }

    /// A copy without gaps between its columns.
    pub fn into_owned(&self) -> (r: DMatrix<T>)
        requires
            self.wf(),
        ensures
            r.compact(),
            r.grid() == self.grid(),
    {
        compacted(self.data, self.nrows, self.ncols, self.col_stride)
    }
}

impl<'a, T: Real> vstd::std_specs::core::IndexSpecImpl<(usize, usize)> for MatrixView<'a, T> {
    open spec fn index_req(&self, index: &(usize, usize)) -> bool {
        self.wf() && index.0 < self.nrows && index.1 < self.ncols
    }
}

impl<'a, T: Real> std::ops::Index<(usize, usize)> for MatrixView<'a, T> {
    type Output = T;

    /// The entry in row `at.0` and column `at.1`.
    fn index(&self, at: (usize, usize)) -> (r: &T)
        ensures
            *r == self.grid().at(at.0 as int, at.1 as int),
    {
        let p: usize = position(
            at.0,
            at.1,
            self.data.len(),
            self.nrows,
            self.ncols,
            self.col_stride,
        );
        proof {
            layout::lemma_grid_at(
                self.data@,
                self.nrows as nat,
                self.ncols as nat,
                self.col_stride as nat,
                at.0 as int,
                at.1 as int,
            );
        }
        &self.data[p]
    }
}

/// A copy, without gaps between the columns, of the matrix of this shape that stands in `data`.
pub(crate) fn compacted<T: Real>(
    data: &[T],
    nrows: usize,
    ncols: usize,
    stride: usize,
) -> (r: DMatrix<T>)
    requires
        fits(data@.len(), nrows as nat, ncols as nat, stride as nat),
    ensures
        r.compact(),
        r.grid() == grid_of(data@, nrows as nat, ncols as nat, stride as nat),
{
    let mut out: Vec<T> = Vec::new();
    let ghost g = grid_of(data@, nrows as nat, ncols as nat, stride as nat);
    proof {
        layout::lemma_grid_wf(data@, nrows as nat, ncols as nat, stride as nat);
        assert(grid_of(out@, nrows as nat, 0, nrows as nat).cols =~= g.cols.subrange(0, 0));
        assert(0 * nrows == 0) by (nonlinear_arith);
    }
    for j in 0..ncols
        invariant
            fits(data@.len(), nrows as nat, ncols as nat, stride as nat),
            g == grid_of(data@, nrows as nat, ncols as nat, stride as nat),
            g.wf(),
            out@.len() == j * nrows,
            grid_of(out@, nrows as nat, j as nat, nrows as nat).cols == g.cols.subrange(
                0,
                j as int,
            ),
    {
        let start: usize = column_start(j, data.len(), nrows, ncols, stride);
        let mut column: Vec<T> = slice_to_vec(slice_subrange(data, start, start + nrows));
        proof {
            assert(column@ == g.cols[j as int]);
            layout::lemma_push_column(out@, nrows as nat, j as nat, column@);
            assert(g.cols.subrange(0, j as int).push(g.cols[j as int]) =~= g.cols.subrange(
                0,
                j + 1,
            ));
        }
        out.append(&mut column);
    }
    proof {
        layout::lemma_compact_fits(nrows as nat, ncols as nat);
        assert(g.cols.subrange(0, ncols as int) =~= g.cols);
    }
    DMatrix { data: out, nrows, ncols, col_stride: nrows }
}

/// A view of a matrix, or of a block of one, open to change.
#[derive(Debug)]
pub struct MatrixViewMut<'a, T: Real> {
    /// The slice that holds the entries.
    pub data: &'a mut [T],
    /// The number of rows.
    pub nrows: usize,
    /// The number of columns.
    pub ncols: usize,
    /// The distance between the starts of two neighbouring columns.
    pub col_stride: usize,
}

impl<'a, T: Real> MatrixViewMut<'a, T> {
    /// The viewed matrix.
    pub open spec fn grid(&self) -> Grid<T> {
        grid_of(self.data@, self.nrows as nat, self.ncols as nat, self.col_stride as nat)
    }

    /// Whether the slice holds every entry, and no two columns overlap.
    pub open spec fn wf(&self) -> bool {
        fits(self.data@.len(), self.nrows as nat, self.ncols as nat, self.col_stride as nat)
    }

    /// Whether this is `before` with nothing but entries of the viewed matrix changed.
    pub open spec fn only_entries_changed(&self, before: &Self) -> bool {
        &&& self.nrows == before.nrows
        &&& self.ncols == before.ncols
        &&& self.col_stride == before.col_stride
        &&& same_outside(
            before.data@,
            self.data@,
            self.nrows as nat,
            self.ncols as nat,
            self.col_stride as nat,
        )
    }

    /// The number of rows.
    pub fn nrows(&self) -> (r: usize)
        ensures
            r == self.grid().nrows,
    {
        self.nrows
    }

    /// The number of columns.
    pub fn ncols(&self) -> (r: usize)
        ensures
            r == self.grid().cols.len(),
    {
        self.ncols
    }

    /// Entry `(i, j)`.
    pub fn get(&self, i: usize, j: usize) -> (r: T)
        requires
            self.wf(),
            i < self.nrows,
            j < self.ncols,
        ensures
            r == self.grid().at(i as int, j as int),
    {
        let p: usize = position(
            i,
            j,
            self.data.len(),
            self.nrows,
            self.ncols,
            self.col_stride,
        );
        proof {
            layout::lemma_grid_at(
                self.data@,
                self.nrows as nat,
                self.ncols as nat,
                self.col_stride as nat,
                i as int,
                j as int,
            );
        }
        self.data[p]
    }

    /// Writes `v` to entry `(i, j)`.
    pub(crate) fn put(&mut self, i: usize, j: usize, v: T)
        requires
            old(self).wf(),
            i < old(self).nrows,
            j < old(self).ncols,
        ensures
            final(self).wf(),
            final(self).only_entries_changed(old(self)),
            final(self).grid() == old(self).grid().set(i as int, j as int, v),
            final(final(self).data)@ == final(old(self).data)@,
    {
        let p: usize = position(
            i,
            j,
            self.data.len(),
            self.nrows,
            self.ncols,
            self.col_stride,
        );
        proof {
            layout::lemma_set(
                self.data@,
                self.nrows as nat,
                self.ncols as nat,
                self.col_stride as nat,
                i as int,
                j as int,
                v,
            );
        }
        self.data[p] = v;
    }

    /// Column `j`, open to change.
    pub fn column_mut(&mut self, j: usize) -> (r: DVectorViewMut<'_, T>)
        requires
            old(self).wf(),
            j < old(self).ncols,
        ensures
            r@ == old(self).grid().cols[j as int],
            r@.len() == old(self).nrows,
            final(self).nrows == old(self).nrows,
            final(self).ncols == old(self).ncols,
            final(self).col_stride == old(self).col_stride,
            final(r.data)@.len() == r@.len() ==> final(self).wf()
                && final(self).only_entries_changed(old(self)) && final(self).grid().cols == old(self)
                .grid().cols.update(j as int, final(r.data)@),
            final(self).data@ == old(self).data@.subrange(0, j * old(self).col_stride) + final(r.data)@ + old(self).data@.subrange(
                j * old(self).col_stride + old(self).nrows,
                old(self).data@.len() as int,
            ),
            final(final(self).data)@ == final(old(self).data)@,
    {
        let start: usize = column_start(
            j,
            self.data.len(),
            self.nrows,
            self.ncols,
            self.col_stride,
        );
        proof {
            assert forall|col: Seq<T>| col.len() == self.nrows implies ({
                let after = #[trigger] (self.data@.subrange(0, start as int) + col)
                    + self.data@.subrange(start + self.nrows, self.data@.len() as int);
                let g = grid_of(
                    after,
                    self.nrows as nat,
                    self.ncols as nat,
                    self.col_stride as nat,
                );
                &&& after.len() == self.data@.len()
                &&& g.cols == self.grid().cols.update(j as int, col)
                &&& same_outside(
                    self.data@,
                    after,
                    self.nrows as nat,
                    self.ncols as nat,
                    self.col_stride as nat,
                )
            }) by {
                layout::lemma_set_column(
                    self.data@,
                    self.nrows as nat,
                    self.ncols as nat,
                    self.col_stride as nat,
                    j as int,
                    col,
                );
            }
        }
        DVectorViewMut { data: part_mut(self.data, start, start + self.nrows) }
    }

    /// The `L` rows from `first` on, open to change.
    pub fn fixed_rows_mut<const L: usize>(&mut self, first: usize) -> (r: MatrixViewMut<'_, T>)
        requires
            old(self).wf(),
            old(self).ncols > 0,
            first + L <= old(self).nrows,
        ensures
            r.wf(),
            r.grid() == old(self).grid().block(first as int, 0, L as nat, old(self).ncols as nat),
            r.nrows == L,
            r.ncols == old(self).ncols,
            r.col_stride == old(self).col_stride,
            final(self).nrows == old(self).nrows,
            final(self).ncols == old(self).ncols,
            final(self).col_stride == old(self).col_stride,
            ({
                let end = first + L + (old(self).ncols - 1) * old(self).col_stride;
                &&& r.data@ == old(self).data@.subrange(first as int, end)
                &&& final(self).data@ == old(self).data@.subrange(0, first as int) + final(r.data)@
                    + old(self).data@.subrange(end, old(self).data@.len() as int)
            }),
            final(final(self).data)@ == final(old(self).data)@,
    {
        self.rows_mut(first, L)
    }

    /// The `n` rows from `first` on, open to change.
    pub fn rows_mut(&mut self, first: usize, n: usize) -> (r: MatrixViewMut<'_, T>)
        requires
            old(self).wf(),
            old(self).ncols > 0,
            first + n <= old(self).nrows,
        ensures
            r.wf(),
            r.grid() == old(self).grid().block(first as int, 0, n as nat, old(self).ncols as nat),
            r.nrows == n,
            r.ncols == old(self).ncols,
            r.col_stride == old(self).col_stride,
            final(self).nrows == old(self).nrows,
            final(self).ncols == old(self).ncols,
            final(self).col_stride == old(self).col_stride,
            ({
                let end = first + n + (old(self).ncols - 1) * old(self).col_stride;
                &&& r.data@ == old(self).data@.subrange(first as int, end)
                &&& final(self).data@ == old(self).data@.subrange(0, first as int) + final(r.data)@
                    + old(self).data@.subrange(end, old(self).data@.len() as int)
            }),
            final(final(self).data)@ == final(old(self).data)@,
    {
        let len: usize = span(n, self.ncols, self.col_stride, self.data.len());
        proof {
            layout::lemma_block(
                self.data@,
                self.nrows as nat,
                self.ncols as nat,
                self.col_stride as nat,
                first as int,
                0,
                n as nat,
                self.ncols as nat,
                len as nat,
            );
        }
        MatrixViewMut {
            data: part_mut(self.data, first, first + len),
            nrows: n,
            ncols: self.ncols,
            col_stride: self.col_stride,
        }
    }

    /// A copy without gaps between its columns.
    pub fn into_owned(&self) -> (r: DMatrix<T>)
        requires
            self.wf(),
        ensures
            r.compact(),
            r.grid() == self.grid(),
    {
        compacted(self.data, self.nrows, self.ncols, self.col_stride)
    }

    /// Takes over the entries of `other`, which has the same shape.
    pub fn copy_from(&mut self, other: &MatrixView<'_, T>)
        requires
            old(self).wf(),
            other.wf(),
            old(self).nrows == other.nrows,
            old(self).ncols == other.ncols,
        ensures
            final(self).wf(),
            final(self).only_entries_changed(old(self)),
            final(self).grid() == other.grid(),
            final(final(self).data)@ == final(old(self).data)@,
    {
        let ghost before = *self;
        let ncols: usize = self.ncols;
        for j in 0..ncols
            invariant
                self.wf(),
                other.wf(),
                self.only_entries_changed(&before),
                self.nrows == other.nrows,
                self.ncols == ncols,
                other.ncols == ncols,
                forall|k: int| 0 <= k < j ==> #[trigger] self.grid().cols[k] == other.grid().cols[k],
                final(self.data)@ == final(before.data)@,
        {
            let column = other.column(j);
            self.column_mut(j).copy_from(&column);
        }
        assert(self.grid().cols =~= other.grid().cols);
    }

    /// Takes over the entries of `other`, which has the same shape.
    pub fn copy_from_dmatrix(&mut self, other: &DMatrix<T>)
        requires
            old(self).wf(),
            other.wf(),
            old(self).nrows == other.nrows,
            old(self).ncols == other.ncols,
        ensures
            final(self).wf(),
            final(self).only_entries_changed(old(self)),
            final(self).grid() == other.grid(),
            final(final(self).data)@ == final(old(self).data)@,
    {
        self.copy_from(&other.as_view());
    }

    /// Sets every entry of the viewed matrix to `value`.
    pub fn fill(&mut self, value: T)
        requires
            old(self).wf(),
        ensures
            final(self).wf(),
            final(self).only_entries_changed(old(self)),
            final(self).grid() == Grid::tabulate(
                old(self).nrows as nat,
                old(self).ncols as nat,
                |i: int, j: int| value,
            ),
            final(final(self).data)@ == final(old(self).data)@,
    {
        let ghost before = *self;
        let ghost all = Grid::tabulate(
            self.nrows as nat,
            self.ncols as nat,
            |i: int, j: int| value,
        );
        let ncols: usize = self.ncols;
        for j in 0..ncols
            invariant
                self.wf(),
                self.only_entries_changed(&before),
                self.ncols == ncols,
                all == Grid::tabulate(
                    self.nrows as nat,
                    ncols as nat,
                    |i: int, j: int| value,
                ),
                forall|k: int| 0 <= k < j ==> #[trigger] self.grid().cols[k] == all.cols[k],
                final(self.data)@ == final(before.data)@,
        {
            self.column_mut(j).fill(value);
            assert(self.grid().cols[j as int] =~= all.cols[j as int]);
        }
        assert(self.grid().cols =~= all.cols);
    }

    /// Replaces every entry by what `f` gives for it and the entry of `rhs` at the same place.
    pub fn zip_apply(&mut self, rhs: &MatrixView<'_, T>, f: impl Fn(T, T) -> T)
        requires
            old(self).wf(),
            rhs.wf(),
            old(self).nrows == rhs.nrows,
            old(self).ncols == rhs.ncols,
            old(self).col_stride == rhs.col_stride,
            forall|e: T, x: T| call_requires(f, (e, x)),
        ensures
            final(self).wf(),
            final(self).only_entries_changed(old(self)),
            forall|i: int, j: int|
                0 <= i < old(self).nrows && 0 <= j < old(self).ncols ==> call_ensures(
                    f,
                    (old(self).grid().at(i, j), rhs.grid().at(i, j)),
                    #[trigger] final(self).grid().at(i, j),
                ),
            final(final(self).data)@ == final(old(self).data)@,
    {
        let ghost before = *self;
        let ncols: usize = self.ncols;
        let nrows: usize = self.nrows;
        proof {
            layout::lemma_grid_wf(
                self.data@,
                nrows as nat,
                ncols as nat,
                self.col_stride as nat,
            );
        }
        for j in 0..ncols
            invariant
                self.wf(),
                rhs.wf(),
                self.grid().wf(),
                self.only_entries_changed(&before),
                self.nrows == nrows,
                self.ncols == ncols,
                rhs.nrows == nrows,
                rhs.ncols == ncols,
                forall|e: T, x: T| call_requires(f, (e, x)),
                forall|r: int, k: int|
                    0 <= r < nrows && 0 <= k < j ==> call_ensures(
                        f,
                        (before.grid().at(r, k), rhs.grid().at(r, k)),
                        #[trigger] self.grid().at(r, k),
                    ),
                forall|r: int, k: int|
                    0 <= r < nrows && j <= k < ncols ==> #[trigger] self.grid().at(r, k) == before.grid().at(
                        r,
                        k,
                    ),
                final(self.data)@ == final(before.data)@,
        {
            for i in 0..nrows
                invariant
                    self.wf(),
                    rhs.wf(),
                    self.grid().wf(),
                    self.only_entries_changed(&before),
                    self.nrows == nrows,
                    self.ncols == ncols,
                    rhs.nrows == nrows,
                    rhs.ncols == ncols,
                    j < ncols,
                    forall|e: T, x: T| call_requires(f, (e, x)),
                    forall|r: int, k: int|
                        (0 <= r < nrows && 0 <= k < j) || (0 <= r < i && k == j) ==> call_ensures(
                            f,
                            (before.grid().at(r, k), rhs.grid().at(r, k)),
                            #[trigger] self.grid().at(r, k),
                        ),
                    forall|r: int, k: int|
                        (0 <= r < nrows && j < k < ncols) || (i <= r < nrows && k == j)
                            ==> #[trigger] self.grid().at(r, k) == before.grid().at(r, k),
                    final(self.data)@ == final(before.data)@,
            {
                let ghost at_hand = self.grid();
                let x = f(self.get(i, j), rhs[(i, j)]);
                self.put(i, j, x);
                assert(forall|r: int, k: int|
                    0 <= r < nrows && 0 <= k < ncols && (r != i || k != j) ==> #[trigger] self.grid().at(
                        r,
                        k,
                    ) == at_hand.at(r, k));
            }
        }
    }

    /// Exchanges the entries at `a` and `b`, each given by row and column.
    pub fn swap(&mut self, a: (usize, usize), b: (usize, usize))
        requires
            old(self).wf(),
            a.0 < old(self).nrows,
            a.1 < old(self).ncols,
            b.0 < old(self).nrows,
            b.1 < old(self).ncols,
        ensures
            final(self).wf(),
            final(self).only_entries_changed(old(self)),
            final(self).grid() == old(self).grid().set(
                a.0 as int,
                a.1 as int,
                old(self).grid().at(b.0 as int, b.1 as int),
            ).set(b.0 as int, b.1 as int, old(self).grid().at(a.0 as int, a.1 as int)),
            final(final(self).data)@ == final(old(self).data)@,
    {
        let x = self.get(a.0, a.1);
        let y = self.get(b.0, b.1);
        self.put(a.0, a.1, y);
        self.put(b.0, b.1, x);
    }

    /// The entry in row `at.0` and column `at.1`, open to change.
    pub fn index_mut(&mut self, at: (usize, usize)) -> (r: &mut T)
        requires
            old(self).wf(),
            at.0 < old(self).nrows,
            at.1 < old(self).ncols,
        ensures
            *r == old(self).grid().at(at.0 as int, at.1 as int),
            final(self).wf(),
            final(self).only_entries_changed(old(self)),
            final(self).grid() == old(self).grid().set(at.0 as int, at.1 as int, *final(r)),
            final(final(self).data)@ == final(old(self).data)@,
    {
        let p: usize = position(
            at.0,
            at.1,
            self.data.len(),
            self.nrows,
            self.ncols,
            self.col_stride,
        );
        proof {
            layout::lemma_grid_at(
                self.data@,
                self.nrows as nat,
                self.ncols as nat,
                self.col_stride as nat,
                at.0 as int,
                at.1 as int,
            );
            assert forall|v: T|
                grid_of(
                    #[trigger] self.data@.update(p as int, v),
                    self.nrows as nat,
                    self.ncols as nat,
                    self.col_stride as nat,
                ) == self.grid().set(at.0 as int, at.1 as int, v) && same_outside(
                    self.data@,
                    self.data@.update(p as int, v),
                    self.nrows as nat,
                    self.ncols as nat,
                    self.col_stride as nat,
                ) by {
                layout::lemma_set(
                    self.data@,
                    self.nrows as nat,
                    self.ncols as nat,
                    self.col_stride as nat,
                    at.0 as int,
                    at.1 as int,
                    v,
                );
            }
        }
        &mut self.data[p]
    }
}

impl<'a, T: Real> vstd::std_specs::core::IndexSpecImpl<(usize, usize)> for MatrixViewMut<'a, T> {
    open spec fn index_req(&self, index: &(usize, usize)) -> bool {
        self.wf() && index.0 < self.nrows && index.1 < self.ncols
    }
}

impl<'a, T: Real> std::ops::Index<(usize, usize)> for MatrixViewMut<'a, T> {
    type Output = T;

    /// The entry in row `at.0` and column `at.1`.
    fn index(&self, at: (usize, usize)) -> (r: &T)
        ensures
            *r == self.grid().at(at.0 as int, at.1 as int),
    {
        let p: usize = position(
            at.0,
            at.1,
            self.data.len(),
            self.nrows,
            self.ncols,
            self.col_stride,
        );
        proof {
            layout::lemma_grid_at(
                self.data@,
                self.nrows as nat,
                self.ncols as nat,
                self.col_stride as nat,
                at.0 as int,
                at.1 as int,
            );
        }
        &self.data[p]
    }
}

} // verus!
