//! Owned matrices.
use vstd::prelude::*;
use vstd::slice::slice_subrange;
use vstd::slice::slice_to_vec;

use crate::linalg::kernels::fill_slice;
use crate::linalg::layout;
use crate::linalg::layout::{fits, grid_of, same_outside, Grid};
use crate::linalg::rows;
use crate::linalg::rows::RowsViewMut;
use crate::linalg::vector::{repeated, DVector, DVectorViewMut};
use crate::linalg::view::{column_start, part_mut, position, span, MatrixView, MatrixViewMut};
use crate::scalar::Real;

verus! {

/// A matrix of a shape chosen at run time, stored column after column.
#[derive(Clone, Debug)]
pub struct DMatrix<T: Real> {
    /// The entries, column after column.
    pub data: Vec<T>,
    /// The number of rows.
    pub nrows: usize,
    /// The number of columns.
    pub ncols: usize,
    /// The distance between the starts of two neighbouring columns.
    pub col_stride: usize,
}

/// A matrix of run-time shape, under the name it has where a fixed number of rows is meant.
pub type OMatrix<T> = DMatrix<T>;

/// A matrix with one column for each degree of freedom.
pub type Jacobian<N> = DMatrix<N>;

impl<T: Real> Default for DMatrix<T> {
    /// The matrix without rows and columns.
    fn default() -> (r: Self)
        ensures
            r.compact(),
            r.nrows == 0,
            r.ncols == 0,
    {
        proof {
            layout::lemma_compact_fits(0, 0);
        }
        DMatrix { data: Vec::new(), nrows: 0, ncols: 0, col_stride: 0 }
    }
}

impl<T: Real> DMatrix<T> {
    /// The matrix as a mathematical value.
    pub open spec fn grid(&self) -> Grid<T> {
        grid_of(self.data@, self.nrows as nat, self.ncols as nat, self.col_stride as nat)
    }

    /// Whether the storage holds every entry, and no two columns overlap.
    pub open spec fn wf(&self) -> bool {
        fits(self.data@.len(), self.nrows as nat, self.ncols as nat, self.col_stride as nat)
    }

    /// Whether the columns follow one another without gaps.
    pub open spec fn compact(&self) -> bool {
        &&& self.col_stride == self.nrows
        &&& self.data@.len() == self.nrows * self.ncols
        &&& self.wf()
    }

    /// Whether this is `before` with nothing but entries of the matrix changed.
    pub open spec fn only_entries_changed(&self, before: &Self) -> bool {
        &&& self.nrows == before.nrows
        &&& self.ncols == before.ncols
        &&& self.col_stride == before.col_stride
        &&& same_outside(
            before.data@,
            self.data@,
            self.nrows as nat,
            self.ncols as nat,
            self.col_stride as nat,
        )
    }

    /// Whether the two have the same shape and the same distance between columns.
    pub open spec fn same_shape(&self, other: &Self) -> bool {
        &&& self.nrows == other.nrows
        &&& self.ncols == other.ncols
        &&& self.col_stride == other.col_stride
    }

    /// A view of the whole matrix.
    pub fn as_view(&self) -> (r: MatrixView<'_, T>)
        ensures
            r.data@ == self.data@,
            r.nrows == self.nrows,
            r.ncols == self.ncols,
            r.col_stride == self.col_stride,
    {
        MatrixView {
            data: self.data.as_slice(),
            nrows: self.nrows,
            ncols: self.ncols,
            col_stride: self.col_stride,
        }
    }

    /// A view of the whole matrix, open to change.
    pub(crate) fn whole_mut(&mut self) -> (r: MatrixViewMut<'_, T>)
        ensures
            r.data@ == old(self).data@,
            r.nrows == old(self).nrows,
            r.ncols == old(self).ncols,
            r.col_stride == old(self).col_stride,
            final(self).same_shape(old(self)),
            final(self).data@ == final(r.data)@,
    {
        MatrixViewMut {
            data: self.data.as_mut_slice(),
            nrows: self.nrows,
            ncols: self.ncols,
            col_stride: self.col_stride,
        }
    }

    /// The block of `shape.0` rows and `shape.1` columns whose first entry is `first`, in a view
    /// with a slice of `len` entries.
    fn block_view(
        &self,
        first: (usize, usize),
        shape: (usize, usize),
        len: usize,
    ) -> (r: MatrixView<'_, T>)
        requires
            self.wf(),
            first.0 + shape.0 <= self.nrows,
            first.1 + shape.1 <= self.ncols,
            fits(len as nat, shape.0 as nat, shape.1 as nat, self.col_stride as nat),
            0 <= first.1 * self.col_stride,
            first.1 * self.col_stride + first.0 + len <= self.data@.len(),
        ensures
            r.wf(),
            r.grid() == self.grid().block(
                first.0 as int,
                first.1 as int,
                shape.0 as nat,
                shape.1 as nat,
            ),
            r.nrows == shape.0,
            r.ncols == shape.1,
            r.col_stride == self.col_stride,
            r.data@ == self.data@.subrange(
                first.1 * self.col_stride + first.0,
                first.1 * self.col_stride + first.0 + len,
            ),
    {
        proof {
            layout::lemma_block(
                self.data@,
                self.nrows as nat,
                self.ncols as nat,
                self.col_stride as nat,
                first.0 as int,
                first.1 as int,
                shape.0 as nat,
                shape.1 as nat,
                len as nat,
            );
        }
        let all: &[T] = self.data.as_slice();
        let available: usize = all.len();
        assert(first.1 * self.col_stride + first.0 + len <= available);
        let from: usize = first.1 * self.col_stride + first.0;
        MatrixView {
            data: slice_subrange(all, from, from + len),
            nrows: shape.0,
            ncols: shape.1,
            col_stride: self.col_stride,
        }
    }

    /// The block of `shape.0` rows and `shape.1` columns whose first entry is `first`, open to
    /// change, in a view with a slice of `len` entries.
    fn block_view_mut(
        &mut self,
        first: (usize, usize),
        shape: (usize, usize),
        len: usize,
    ) -> (r: MatrixViewMut<'_, T>)
        requires
            old(self).wf(),
            first.0 + shape.0 <= old(self).nrows,
            first.1 + shape.1 <= old(self).ncols,
            fits(len as nat, shape.0 as nat, shape.1 as nat, old(self).col_stride as nat),
            0 <= first.1 * old(self).col_stride,
            first.1 * old(self).col_stride + first.0 + len <= old(self).data@.len(),
        ensures
            r.wf(),
            r.grid() == old(self).grid().block(
                first.0 as int,
                first.1 as int,
                shape.0 as nat,
                shape.1 as nat,
            ),
            r.nrows == shape.0,
            r.ncols == shape.1,
            r.col_stride == old(self).col_stride,
            final(self).same_shape(old(self)),
            written_through(
                old(self),
                final(self),
                first.1 * old(self).col_stride + first.0,
                r.data@,
                final(r.data)@,
            ),
            r.data@.len() == len,
    {
        proof {
            layout::lemma_block(
                self.data@,
                self.nrows as nat,
                self.ncols as nat,
                self.col_stride as nat,
                first.0 as int,
                first.1 as int,
                shape.0 as nat,
                shape.1 as nat,
                len as nat,
            );
        }
        let available: usize = self.data.len();
        assert(first.1 * self.col_stride + first.0 + len <= available);
        let from: usize = first.1 * self.col_stride + first.0;
        MatrixViewMut {
            data: part_mut(self.data.as_mut_slice(), from, from + len),
            nrows: shape.0,
            ncols: shape.1,
            col_stride: self.col_stride,
        }
    }
}

/// The matrix with ones where the row and the column have the same number, and zeros elsewhere.
pub open spec fn identity<T: Real>(nrows: nat, ncols: nat) -> Grid<T> {
    Grid::tabulate(
        nrows,
        ncols,
        |i: int, j: int|
            if i == j {
                T::one()
            } else {
                T::zero()
            },
    )
}

/// Whether `after` is `before` with the part of the storage that starts at `from` and held `part`
/// replaced by `replacement`.
pub open spec fn written_through<T: Real>(
    before: &DMatrix<T>,
    after: &DMatrix<T>,
    from: int,
    part: Seq<T>,
    replacement: Seq<T>,
) -> bool {
    &&& 0 <= from
    &&& from + part.len() <= before.data@.len()
    &&& part == before.data@.subrange(from, from + part.len())
    &&& after.data@ == before.data@.subrange(0, from) + replacement + before.data@.subrange(
        from + part.len(),
        before.data@.len() as int,
    )
}

impl<T: Real> DMatrix<T> {
    /// The matrix of zeros.
    pub fn zeros(nrows: usize, ncols: usize) -> (r: Self)
        requires
            nrows * ncols <= usize::MAX,
        ensures
            r.compact(),
            r.nrows == nrows,
            r.ncols == ncols,
            r.grid() == Grid::tabulate(
                nrows as nat,
                ncols as nat,
                |i: int, j: int| T::zero(),
            ),
    {
        let data: Vec<T> = repeated(nrows * ncols, T::zero());
        let r = DMatrix { data, nrows, ncols, col_stride: nrows };
        proof {
            layout::lemma_compact_fits(nrows as nat, ncols as nat);
            lemma_uniform(&r, T::zero());
        }
        r
    }

    /// The matrix whose rows, one after another, are the entries of `slice`.
    pub fn from_row_slice(nrows: usize, ncols: usize, slice: &[T]) -> (r: Self)
        requires
            nrows * ncols <= slice@.len(),
        ensures
            r.compact(),
            r.nrows == nrows,
            r.ncols == ncols,
            r.grid() == Grid::tabulate(
                nrows as nat,
                ncols as nat,
                |i: int, j: int| slice@[i * ncols + j],
            ),
    {
        let mut data: Vec<T> = Vec::new();
        let ghost g = Grid::tabulate(
            nrows as nat,
            ncols as nat,
            |i: int, j: int| slice@[i * ncols + j],
        );
        proof {
            assert(grid_of(data@, nrows as nat, 0, nrows as nat).cols =~= g.cols.subrange(0, 0));
            assert(0 * nrows == 0) by (nonlinear_arith);
            layout::lemma_compact_fits(ncols as nat, nrows as nat);
        }
        for j in 0..ncols
            invariant
                nrows * ncols <= slice@.len(),
                fits((nrows * ncols) as nat, ncols as nat, nrows as nat, ncols as nat),
                g == Grid::tabulate(
                    nrows as nat,
                    ncols as nat,
                    |i: int, j: int| slice@[i * ncols + j],
                ),
                data@.len() == j * nrows,
                grid_of(data@, nrows as nat, j as nat, nrows as nat).cols == g.cols.subrange(
                    0,
                    j as int,
                ),
        {
            let mut column: Vec<T> = Vec::new();
            for i in 0..nrows
                invariant
                    nrows * ncols <= slice@.len(),
                    fits((nrows * ncols) as nat, ncols as nat, nrows as nat, ncols as nat),
                    j < ncols,
                    column@ == Seq::new(i as nat, |k: int| slice@[k * ncols + j]),
            {
                proof {
                    layout::lemma_position(
                        j as int,
                        i as int,
                        (nrows * ncols) as nat,
                        ncols as nat,
                        nrows as nat,
                        ncols as nat,
                    );
                }
                let available: usize = slice.len();
                assert(i * ncols + j < available);
                column.push(slice[i * ncols + j]);
                assert(column@ =~= Seq::new((i + 1) as nat, |k: int| slice@[k * ncols + j]));
            }
            proof {
                assert(column@ =~= g.cols[j as int]);
                layout::lemma_push_column(data@, nrows as nat, j as nat, column@);
                assert(g.cols.subrange(0, j as int).push(g.cols[j as int]) =~= g.cols.subrange(
                    0,
                    j + 1,
                ));
            }
            data.append(&mut column);
        }
        proof {
            layout::lemma_compact_fits(nrows as nat, ncols as nat);
            assert(g.cols.subrange(0, ncols as int) =~= g.cols);
        }
        DMatrix { data, nrows, ncols, col_stride: nrows }
    }

    /// The distances between neighbouring rows and between neighbouring columns.
    pub fn strides(&self) -> (r: (usize, usize))
        ensures
            r == (1usize, self.col_stride),
    {
        (1, self.col_stride)
    }

    /// A copy of column `j`.
    pub fn column(&self, j: usize) -> (r: DVector<T>)
        requires
            self.wf(),
            j < self.ncols,
        ensures
            r@ == self.grid().cols[j as int],
            r@.len() == self.nrows,
    {
        self.as_view().column(j)
    }

    /// Column `j`, open to change.
    pub fn column_mut(&mut self, j: usize) -> (r: DVectorViewMut<'_, T>)
        requires
            old(self).wf(),
            j < old(self).ncols,
        ensures
            r@ == old(self).grid().cols[j as int],
            r@.len() == old(self).nrows,
            final(self).same_shape(old(self)),
            written_through(
                old(self),
                final(self),
                j * old(self).col_stride,
                r@,
                final(r.data)@,
            ),
            final(r.data)@.len() == r@.len() ==> final(self).wf()
                && final(self).only_entries_changed(old(self))
                && final(self).grid().cols == old(self).grid().cols.update(j as int, final(r.data)@),
    {
        let start: usize = column_start(
            j,
            self.data.len(),
            self.nrows,
            self.ncols,
            self.col_stride,
        );
        proof {
            assert forall|col: Seq<T>| col.len() == self.nrows implies ({
                let after = #[trigger] (self.data@.subrange(0, start as int) + col)
                    + self.data@.subrange(start + self.nrows, self.data@.len() as int);
                let g = grid_of(
                    after,
                    self.nrows as nat,
                    self.ncols as nat,
                    self.col_stride as nat,
                );
                &&& after.len() == self.data@.len()
                &&& g.cols == self.grid().cols.update(j as int, col)
                &&& same_outside(
                    self.data@,
                    after,
                    self.nrows as nat,
                    self.ncols as nat,
                    self.col_stride as nat,
                )
            }) by {
                layout::lemma_set_column(
                    self.data@,
                    self.nrows as nat,
                    self.ncols as nat,
                    self.col_stride as nat,
                    j as int,
                    col,
                );
            }
        }
        DVectorViewMut {
            data: part_mut(self.data.as_mut_slice(), start, start + self.nrows),
        }
    }

    /// Sets every entry of the storage to `value`.
    pub fn fill(&mut self, value: T)
        ensures
            final(self).same_shape(old(self)),
            final(self).data@ == Seq::new(old(self).data@.len(), |p: int| value),
            old(self).wf() ==> final(self).wf() && final(self).grid() == Grid::tabulate(
                old(self).nrows as nat,
                old(self).ncols as nat,
                |i: int, j: int| value,
            ),
    {
        fill_slice(self.data.as_mut_slice(), value);
        proof {
            if old(self).wf() {
                lemma_uniform(self, value);
            }
        }
    }

    /// Takes over the entries of `other`, which has the same numbers of rows and columns.
    pub fn copy_from(&mut self, other: &DMatrix<T>)
        requires
            old(self).wf(),
            other.wf(),
            old(self).nrows == other.nrows,
            old(self).ncols == other.ncols,
        ensures
            final(self).wf(),
            final(self).only_entries_changed(old(self)),
            final(self).grid() == other.grid(),
    {
        self.whole_mut().copy_from(&other.as_view());
    }

    /// A copy.
    pub fn clone_owned(&self) -> (r: DMatrix<T>)
        ensures
            r.data@ == self.data@,
            r.same_shape(self),
    {
        DMatrix {
            data: slice_to_vec(self.data.as_slice()),
            nrows: self.nrows,
            ncols: self.ncols,
            col_stride: self.col_stride,
        }
    }

    /// The matrix with rows and columns exchanged.
    pub fn transpose(&self) -> (r: DMatrix<T>)
        requires
            self.wf(),
        ensures
            r.compact(),
            r.grid() == self.grid().transposed(),
    {
        let mut data: Vec<T> = Vec::new();
        let ghost g = self.grid().transposed();
        proof {
            assert(grid_of(data@, self.ncols as nat, 0, self.ncols as nat).cols =~= g.cols.subrange(
                0,
                0,
            ));
            assert(0 * self.ncols == 0) by (nonlinear_arith);
        }
        for j in 0..self.nrows
            invariant
                self.wf(),
                g == self.grid().transposed(),
                data@.len() == j * self.ncols,
                grid_of(data@, self.ncols as nat, j as nat, self.ncols as nat).cols
                    == g.cols.subrange(0, j as int),
        {
            let mut column: Vec<T> = Vec::new();
            for i in 0..self.ncols
                invariant
                    self.wf(),
                    j < self.nrows,
                    column@ == Seq::new(i as nat, |k: int| self.grid().at(j as int, k)),
            {
                column.push(self.get(j, i));
                assert(column@ =~= Seq::new((i + 1) as nat, |k: int| self.grid().at(j as int, k)));
            }
            proof {
                assert(column@ =~= g.cols[j as int]);
                layout::lemma_push_column(data@, self.ncols as nat, j as nat, column@);
                assert(g.cols.subrange(0, j as int).push(g.cols[j as int]) =~= g.cols.subrange(
                    0,
                    j + 1,
                ));
            }
            data.append(&mut column);
        }
        proof {
            layout::lemma_compact_fits(self.ncols as nat, self.nrows as nat);
            assert(g.cols.subrange(0, self.nrows as int) =~= g.cols);
        }
        DMatrix { data, nrows: self.ncols, ncols: self.nrows, col_stride: self.ncols }
    }

    /// Entry `(i, j)`.
    pub fn get(&self, i: usize, j: usize) -> (r: T)
        requires
            self.wf(),
            i < self.nrows,
            j < self.ncols,
        ensures
            r == self.grid().at(i as int, j as int),
    {
        let p: usize = position(
            i,
            j,
            self.data.len(),
            self.nrows,
            self.ncols,
            self.col_stride,
        );
        proof {
            layout::lemma_grid_at(
                self.data@,
                self.nrows as nat,
                self.ncols as nat,
                self.col_stride as nat,
                i as int,
                j as int,
            );
        }
        self.data[p]
    }

    /// Entry `(i, j)`, open to change.
    pub fn get_mut(&mut self, i: usize, j: usize) -> (r: &mut T)
        requires
            old(self).wf(),
            i < old(self).nrows,
            j < old(self).ncols,
        ensures
            *r == old(self).grid().at(i as int, j as int),
            final(self).wf(),
            final(self).only_entries_changed(old(self)),
            final(self).grid() == old(self).grid().set(i as int, j as int, *final(r)),
    {
        let p: usize = position(
            i,
            j,
            self.data.len(),
            self.nrows,
            self.ncols,
            self.col_stride,
        );
        proof {
            layout::lemma_grid_at(
                self.data@,
                self.nrows as nat,
                self.ncols as nat,
                self.col_stride as nat,
                i as int,
                j as int,
            );
            assert forall|v: T|
                grid_of(
                    #[trigger] self.data@.update(p as int, v),
                    self.nrows as nat,
                    self.ncols as nat,
                    self.col_stride as nat,
                ) == self.grid().set(i as int, j as int, v) && same_outside(
                    self.data@,
                    self.data@.update(p as int, v),
                    self.nrows as nat,
                    self.ncols as nat,
                    self.col_stride as nat,
                ) by {
                layout::lemma_set(
                    self.data@,
                    self.nrows as nat,
                    self.ncols as nat,
                    self.col_stride as nat,
                    i as int,
                    j as int,
                    v,
                );
            }
        }
        &mut self.data[p]
    }

    /// Exchanges the entries at `a` and `b`, each given by row and column.
    pub fn swap(&mut self, a: (usize, usize), b: (usize, usize))
        requires
            old(self).wf(),
            a.0 < old(self).nrows,
            a.1 < old(self).ncols,
            b.0 < old(self).nrows,
            b.1 < old(self).ncols,
        ensures
            final(self).wf(),
            final(self).only_entries_changed(old(self)),
            final(self).grid() == old(self).grid().set(
                a.0 as int,
                a.1 as int,
                old(self).grid().at(b.0 as int, b.1 as int),
            ).set(b.0 as int, b.1 as int, old(self).grid().at(a.0 as int, a.1 as int)),
    {
        self.whole_mut().swap(a, b);
    }

    /// Whether there are as many rows as columns.
    pub fn is_square(&self) -> (r: bool)
        ensures
            r == (self.nrows == self.ncols),
    {
        self.nrows == self.ncols
    }

    /// The numbers of rows and columns.
    pub fn shape(&self) -> (r: (usize, usize))
        ensures
            r == (self.nrows, self.ncols),
    {
        (self.nrows, self.ncols)
    }

    /// Copies `src`, which has an entry for each row, into column `j`.
    pub fn set_column(&mut self, j: usize, src: &DVector<T>)
        requires
            old(self).wf(),
            j < old(self).ncols,
            src@.len() == old(self).nrows,
        ensures
            final(self).wf(),
            final(self).only_entries_changed(old(self)),
            final(self).grid().cols == old(self).grid().cols.update(j as int, src@),
    {
        self.column_mut(j).copy_from(src);
    }

    /// Makes this the identity matrix. Storage outside the matrix becomes zero.
    pub fn fill_with_identity(&mut self)
        requires
            old(self).wf(),
        ensures
            final(self).wf(),
            final(self).same_shape(old(self)),
            final(self).grid() == identity::<T>(
                old(self).nrows as nat,
                old(self).ncols as nat,
            ),
            final(self).data@.len() == old(self).data@.len(),
            same_outside(
                Seq::new(old(self).data@.len(), |p: int| T::zero()),
                final(self).data@,
                old(self).nrows as nat,
                old(self).ncols as nat,
                old(self).col_stride as nat,
            ),
    {
        self.fill(T::zero());
        let ghost blank = *self;
        let d: usize = if self.nrows < self.ncols {
            self.nrows
        } else {
            self.ncols
        };
        let ghost nrows = self.nrows as nat;
        let ghost ncols = self.ncols as nat;
        proof {
            layout::lemma_same_entries(
                self.grid(),
                Grid::tabulate(
                    nrows,
                    ncols,
                    |r: int, c: int|
                        if r == c && r < 0 {
                            T::one()
                        } else {
                            T::zero()
                        },
                ),
            );
        }
        for i in 0..d
            invariant
                self.wf(),
                self.only_entries_changed(&blank),
                self.nrows == nrows,
                self.ncols == ncols,
                d <= nrows,
                d <= ncols,
                self.grid() == Grid::tabulate(
                    nrows,
                    ncols,
                    |r: int, c: int|
                        if r == c && r < i {
                            T::one()
                        } else {
                            T::zero()
                        },
                ),
        {
            let ghost next = Grid::tabulate(
                nrows,
                ncols,
                |r: int, c: int|
                    if r == c && r < i + 1 {
                        T::one()
                    } else {
                        T::zero()
                    },
            );
            let ghost at_hand = self.grid();
            *self.get_mut(i, i) = T::one();
            proof {
                layout::lemma_same_entries(self.grid(), next);
            }
        }
        proof {
            layout::lemma_same_entries(self.grid(), identity::<T>(nrows, ncols));
        }
    }

    /// Adds to every entry of the storage the one of `rhs` at the same place.
    pub fn add_assign(&mut self, rhs: DMatrix<T>)
        requires
            old(self).same_shape(&rhs),
            old(self).data@.len() <= rhs.data@.len(),
        ensures
            final(self).same_shape(old(self)),
            final(self).data@ == Seq::new(
                old(self).data@.len(),
                |p: int| old(self).data@[p].add(rhs.data@[p]),
            ),
            old(self).wf() ==> final(self).wf() && final(self).grid() == Grid::tabulate(
                old(self).nrows as nat,
                old(self).ncols as nat,
                |i: int, j: int| old(self).grid().at(i, j).add(rhs.grid().at(i, j)),
            ),
    {
        let ghost before = *self;
        let n: usize = self.data.len();
        for p in 0..n
            invariant
                n == self.data@.len(),
                n == before.data@.len(),
                n <= rhs.data@.len(),
                self.same_shape(&before),
                forall|q: int|
                    0 <= q < p ==> #[trigger] self.data@[q] == before.data@[q].add(rhs.data@[q]),
                forall|q: int| p <= q < n ==> #[trigger] self.data@[q] == before.data@[q],
        {
            let e = self.data[p].add(rhs.data[p]);
            self.data[p] = e;
        }
        proof {
            if before.wf() {
                let g = self.grid();
                let sum = Grid::tabulate(
                    before.nrows as nat,
                    before.ncols as nat,
                    |i: int, j: int| before.grid().at(i, j).add(rhs.grid().at(i, j)),
                );
                assert forall|j: int| 0 <= j < g.cols.len() implies g.cols[j] == sum.cols[j] by {
                    layout::lemma_column_start(
                        j,
                        self.data@.len(),
                        self.nrows as nat,
                        self.ncols as nat,
                        self.col_stride as nat,
                    );
                    assert(g.cols[j] =~= sum.cols[j]);
                }
                assert(g.cols =~= sum.cols);
            }
        }
    }
}

impl<T: Real> vstd::std_specs::ops::AddSpecImpl for DMatrix<T> {
    open spec fn obeys_add_spec() -> bool {
        false
    }

    open spec fn add_req(self, rhs: DMatrix<T>) -> bool {
        self.same_shape(&rhs) && self.data@.len() <= rhs.data@.len()
    }

    open spec fn add_spec(self, rhs: DMatrix<T>) -> DMatrix<T> {
        self
    }
}

impl<T: Real> std::ops::Add for DMatrix<T> {
    type Output = DMatrix<T>;

    /// The sum of two matrices of one shape.
    fn add(self, rhs: DMatrix<T>) -> (r: DMatrix<T>)
        ensures
            r.same_shape(&self),
            r.data@ == Seq::new(self.data@.len(), |p: int| self.data@[p].add(rhs.data@[p])),
            self.wf() ==> r.wf() && r.grid() == Grid::tabulate(
                self.nrows as nat,
                self.ncols as nat,
                |i: int, j: int| self.grid().at(i, j).add(rhs.grid().at(i, j)),
            ),
    {
        let mut sum = self;
        sum.add_assign(rhs);
        sum
    }
}

impl<T: Real> DMatrix<T> {
    /// A view of the `n` columns from `first` on.
    pub fn columns(&self, first: usize, n: usize) -> (r: MatrixView<'_, T>)
        requires
            self.wf(),
            first + n <= self.ncols,
            (first + n) * self.col_stride <= self.data@.len(),
        ensures
            r.wf(),
            r.grid() == self.grid().block(0, first as int, self.nrows as nat, n as nat),
            r.nrows == self.nrows,
            r.ncols == n,
            r.col_stride == self.col_stride,
            r.data@ == self.data@.subrange(
                first * self.col_stride,
                (first + n) * self.col_stride,
            ),
    {
        proof {
            layout::lemma_columns_fit(
                self.nrows as nat,
                self.col_stride as nat,
                first as int,
                n as nat,
            );
        }
        let available: usize = self.data.len();
        assert(n * self.col_stride <= available);
        self.block_view((0, first), (self.nrows, n), n * self.col_stride)
    }

    /// The `n` columns from `first` on, open to change.
    pub fn columns_mut(&mut self, first: usize, n: usize) -> (r: MatrixViewMut<'_, T>)
        requires
            old(self).wf(),
            first + n <= old(self).ncols,
            (first + n) * old(self).col_stride <= old(self).data@.len(),
        ensures
            r.wf(),
            r.grid() == old(self).grid().block(0, first as int, old(self).nrows as nat, n as nat),
            r.nrows == old(self).nrows,
            r.ncols == n,
            r.col_stride == old(self).col_stride,
            final(self).same_shape(old(self)),
            r.data@.len() == n * old(self).col_stride,
            written_through(
                old(self),
                final(self),
                first * old(self).col_stride,
                r.data@,
                final(r.data)@,
            ),
    {
        proof {
            layout::lemma_columns_fit(
                self.nrows as nat,
                self.col_stride as nat,
                first as int,
                n as nat,
            );
        }
        let available: usize = self.data.len();
        assert(n * self.col_stride <= available);
        let nrows: usize = self.nrows;
        let len: usize = n * self.col_stride;
        self.block_view_mut((0, first), (nrows, n), len)
    }

    /// The columns of `range`, open to change.
    pub fn columns_range_mut(&mut self, range: std::ops::Range<usize>) -> (r: MatrixViewMut<'_, T>)
        requires
            old(self).wf(),
            range.start <= range.end <= old(self).ncols,
            range.end * old(self).col_stride <= old(self).data@.len(),
        ensures
            r.wf(),
            r.grid() == old(self).grid().block(
                0,
                range.start as int,
                old(self).nrows as nat,
                (range.end - range.start) as nat,
            ),
            r.nrows == old(self).nrows,
            r.ncols == range.end - range.start,
            r.col_stride == old(self).col_stride,
            final(self).same_shape(old(self)),
            r.data@.len() == (range.end - range.start) * old(self).col_stride,
            written_through(
                old(self),
                final(self),
                range.start * old(self).col_stride,
                r.data@,
                final(r.data)@,
            ),
    {
        self.columns_mut(range.start, range.end - range.start)
    }

    /// A view of the `n` rows from `r0` on.
    pub fn rows_range(&self, r0: usize, n: usize) -> (r: MatrixView<'_, T>)
        requires
            self.wf(),
            self.ncols > 0,
            r0 + n <= self.nrows,
        ensures
            r.wf(),
            r.grid() == self.grid().block(r0 as int, 0, n as nat, self.ncols as nat),
            r.nrows == n,
            r.ncols == self.ncols,
            r.col_stride == self.col_stride,
            r.data@ == self.data@.subrange(
                r0 as int,
                r0 + n + (self.ncols - 1) * self.col_stride,
            ),
    {
        proof {
            layout::lemma_block_fits(
                self.data@.len(),
                self.nrows as nat,
                self.ncols as nat,
                self.col_stride as nat,
                r0 as int,
                0,
                n as nat,
                self.ncols as nat,
            );
        }
        let len: usize = span(n, self.ncols, self.col_stride, self.data.len());
        let ncols: usize = self.ncols;
        self.block_view((r0, 0), (n, ncols), len)
    }

    /// The `n` rows from `r0` on, open to change.
    pub fn rows_range_mut(&mut self, r0: usize, n: usize) -> (r: MatrixViewMut<'_, T>)
        requires
            old(self).wf(),
            old(self).ncols > 0,
            r0 + n <= old(self).nrows,
        ensures
            r.wf(),
            r.grid() == old(self).grid().block(r0 as int, 0, n as nat, old(self).ncols as nat),
            r.nrows == n,
            r.ncols == old(self).ncols,
            r.col_stride == old(self).col_stride,
            final(self).same_shape(old(self)),
            r.data@.len() == n + (old(self).ncols - 1) * old(self).col_stride,
            written_through(old(self), final(self), r0 as int, r.data@, final(r.data)@),
    {
        proof {
            layout::lemma_block_fits(
                self.data@.len(),
                self.nrows as nat,
                self.ncols as nat,
                self.col_stride as nat,
                r0 as int,
                0,
                n as nat,
                self.ncols as nat,
            );
        }
        let len: usize = span(n, self.ncols, self.col_stride, self.data.len());
        let ncols: usize = self.ncols;
        self.block_view_mut((r0, 0), (n, ncols), len)
    }

    /// A view of the `L` rows from `first` on.
    pub fn fixed_rows<const L: usize>(&self, first: usize) -> (r: MatrixView<'_, T>)
        requires
            self.wf(),
            self.ncols > 0,
            first + L <= self.nrows,
        ensures
            r.wf(),
            r.grid() == self.grid().block(first as int, 0, L as nat, self.ncols as nat),
            r.nrows == L,
            r.ncols == self.ncols,
            r.col_stride == self.col_stride,
            r.data@ == self.data@.subrange(
                first as int,
                first + L + (self.ncols - 1) * self.col_stride,
            ),
    {
        proof {
            layout::lemma_block_fits(
                self.data@.len(),
                self.nrows as nat,
                self.ncols as nat,
                self.col_stride as nat,
                first as int,
                0,
                L as nat,
                self.ncols as nat,
            );
        }
        let len: usize = span(L, self.ncols, self.col_stride, self.data.len());
        let ncols: usize = self.ncols;
        self.block_view((first, 0), (L, ncols), len)
    }

    /// The `L` rows from `first` on, open to change.
    pub fn fixed_rows_mut<const L: usize>(&mut self, first: usize) -> (r: MatrixViewMut<'_, T>)
        requires
            old(self).wf(),
            old(self).ncols > 0,
            first + L <= old(self).nrows,
        ensures
            r.wf(),
            r.grid() == old(self).grid().block(first as int, 0, L as nat, old(self).ncols as nat),
            r.nrows == L,
            r.ncols == old(self).ncols,
            r.col_stride == old(self).col_stride,
            final(self).same_shape(old(self)),
            r.data@.len() == L + (old(self).ncols - 1) * old(self).col_stride,
            written_through(old(self), final(self), first as int, r.data@, final(r.data)@),
    {
        proof {
            layout::lemma_block_fits(
                self.data@.len(),
                self.nrows as nat,
                self.ncols as nat,
                self.col_stride as nat,
                first as int,
                0,
                L as nat,
                self.ncols as nat,
            );
        }
        let len: usize = span(L, self.ncols, self.col_stride, self.data.len());
        let ncols: usize = self.ncols;
        self.block_view_mut((first, 0), (L, ncols), len)
    }

    /// The `n` rows from `first` on, open to change.
    pub fn rows_mut_block(&mut self, first: usize, n: usize) -> (r: MatrixViewMut<'_, T>)
        requires
            old(self).wf(),
            old(self).ncols > 0,
            first + n <= old(self).nrows,
        ensures
            r.wf(),
            r.grid() == old(self).grid().block(first as int, 0, n as nat, old(self).ncols as nat),
            r.nrows == n,
            r.ncols == old(self).ncols,
            r.col_stride == old(self).col_stride,
            final(self).same_shape(old(self)),
            r.data@.len() == n + (old(self).ncols - 1) * old(self).col_stride,
            written_through(old(self), final(self), first as int, r.data@, final(r.data)@),
    {
        proof {
            layout::lemma_block_fits(
                self.data@.len(),
                self.nrows as nat,
                self.ncols as nat,
                self.col_stride as nat,
                first as int,
                0,
                n as nat,
                self.ncols as nat,
            );
        }
        let len: usize = span(n, self.ncols, self.col_stride, self.data.len());
        let ncols: usize = self.ncols;
        self.block_view_mut((first, 0), (n, ncols), len)
    }

    /// A view of the block of `shape.0` rows and `shape.1` columns whose first entry is `first`.
    pub fn view(&self, first: (usize, usize), shape: (usize, usize)) -> (r: MatrixView<'_, T>)
        requires
            self.wf(),
            shape.1 > 0,
            first.0 + shape.0 <= self.nrows,
            first.1 + shape.1 <= self.ncols,
        ensures
            r.wf(),
            r.grid() == self.grid().block(
                first.0 as int,
                first.1 as int,
                shape.0 as nat,
                shape.1 as nat,
            ),
            r.nrows == shape.0,
            r.ncols == shape.1,
            r.col_stride == self.col_stride,
            r.data@ == self.data@.subrange(
                first.1 * self.col_stride + first.0,
                first.1 * self.col_stride + first.0 + shape.0 + (shape.1 - 1) * self.col_stride,
            ),
    {
        proof {
            layout::lemma_block_fits(
                self.data@.len(),
                self.nrows as nat,
                self.ncols as nat,
                self.col_stride as nat,
                first.0 as int,
                first.1 as int,
                shape.0 as nat,
                shape.1 as nat,
            );
        }
        let len: usize = span(shape.0, shape.1, self.col_stride, self.data.len());
        self.block_view(first, shape, len)
    }

    /// The block of `shape.0` rows and `shape.1` columns whose first entry is `first`, open to
    /// change.
    pub fn view_mut(
        &mut self,
        first: (usize, usize),
        shape: (usize, usize),
    ) -> (r: MatrixViewMut<'_, T>)
        requires
            old(self).wf(),
            shape.1 > 0,
            first.0 + shape.0 <= old(self).nrows,
            first.1 + shape.1 <= old(self).ncols,
        ensures
            r.wf(),
            r.grid() == old(self).grid().block(
                first.0 as int,
                first.1 as int,
                shape.0 as nat,
                shape.1 as nat,
            ),
            r.nrows == shape.0,
            r.ncols == shape.1,
            r.col_stride == old(self).col_stride,
            final(self).same_shape(old(self)),
            r.data@.len() == shape.0 + (shape.1 - 1) * old(self).col_stride,
            written_through(
                old(self),
                final(self),
                first.1 * old(self).col_stride + first.0,
                r.data@,
                final(r.data)@,
            ),
    {
        proof {
            layout::lemma_block_fits(
                self.data@.len(),
                self.nrows as nat,
                self.ncols as nat,
                self.col_stride as nat,
                first.0 as int,
                first.1 as int,
                shape.0 as nat,
                shape.1 as nat,
            );
        }
        let len: usize = span(shape.0, shape.1, self.col_stride, self.data.len());
        self.block_view_mut(first, shape, len)
    }

    /// The first `n0` rows and the `n1` rows after them, both open to change.
    pub fn rows_range_pair_mut(&mut self, n0: usize, n1: usize) -> (r: (
        RowsViewMut<'_, T>,
        RowsViewMut<'_, T>,
    ))
        requires
            old(self).wf(),
            n0 + n1 <= old(self).nrows,
        ensures
            r.0.wf(),
            r.1.wf(),
            r.0.nrows == n0,
            r.1.nrows == n1,
            r.0.columns@.len() == old(self).ncols,
            r.1.columns@.len() == old(self).ncols,
            r.0.grid() == old(self).grid().block(0, 0, n0 as nat, old(self).ncols as nat),
            r.1.grid() == old(self).grid().block(
                n0 as int,
                0,
                n1 as nat,
                old(self).ncols as nat,
            ),
            final(self).same_shape(old(self)),
            ({
                let upper = Seq::new(old(self).ncols as nat, |j: int| final(r.0.columns@[j])@);
                let lower = Seq::new(old(self).ncols as nat, |j: int| final(r.1.columns@[j])@);
                &&& final(self).data@ == rows::joined(
                    old(self).data@,
                    upper,
                    lower,
                    (n0 + n1) as nat,
                    old(self).col_stride as nat,
                    old(self).ncols as nat,
                )
                &&& rows::all_of_len(upper, n0 as nat) && rows::all_of_len(lower, n1 as nat)
                    ==> final(self).wf() && final(self).grid() == rows::with_rows(
                    old(self).grid(),
                    upper,
                    lower,
                    n0 as nat,
                    n1 as nat,
                )
            }),
    {
        let ghost before = *self;
        let ncols: usize = self.ncols;
        let stride: usize = self.col_stride;
        let (upper, lower) = rows::split_rows(
            self.data.as_mut_slice(),
            n0,
            n1,
            ncols,
            stride,
        );
        let r = (
            RowsViewMut { columns: upper, nrows: n0 },
            RowsViewMut { columns: lower, nrows: n1 },
        );
        proof {
            let (g, h) = (r.0.grid(), r.1.grid());
            let all = before.grid();
            assert forall|j: int| 0 <= j < ncols implies g.cols[j] == all.block(
                0,
                0,
                n0 as nat,
                ncols as nat,
            ).cols[j] && h.cols[j] == all.block(n0 as int, 0, n1 as nat, ncols as nat).cols[j] by {
                layout::lemma_column_start(
                    j,
                    before.data@.len(),
                    before.nrows as nat,
                    ncols as nat,
                    stride as nat,
                );
                assert(g.cols[j] =~= all.block(0, 0, n0 as nat, ncols as nat).cols[j]);
                assert(h.cols[j] =~= all.block(n0 as int, 0, n1 as nat, ncols as nat).cols[j]);
            }
            assert(g.cols =~= all.block(0, 0, n0 as nat, ncols as nat).cols);
            assert(h.cols =~= all.block(n0 as int, 0, n1 as nat, ncols as nat).cols);
            let up = Seq::new(ncols as nat, |j: int| final(r.0.columns@[j])@);
            let low = Seq::new(ncols as nat, |j: int| final(r.1.columns@[j])@);
            rows::lemma_joined_grid(
                before.data@,
                up,
                low,
                n0 as nat,
                n1 as nat,
                before.nrows as nat,
                ncols as nat,
                stride as nat,
            );
        }
        r
    }

    /// The entry in row `at.0` and column `at.1`, open to change.
    pub fn index_mut(&mut self, at: (usize, usize)) -> (r: &mut T)
        requires
            old(self).wf(),
            at.0 < old(self).nrows,
            at.1 < old(self).ncols,
        ensures
            *r == old(self).grid().at(at.0 as int, at.1 as int),
            final(self).wf(),
            final(self).only_entries_changed(old(self)),
            final(self).grid() == old(self).grid().set(at.0 as int, at.1 as int, *final(r)),
    {
        self.get_mut(at.0, at.1)
    }
}

impl<T: Real> vstd::std_specs::core::IndexSpecImpl<(usize, usize)> for DMatrix<T> {
    open spec fn index_req(&self, index: &(usize, usize)) -> bool {
        self.wf() && index.0 < self.nrows && index.1 < self.ncols
    }
}

impl<T: Real> std::ops::Index<(usize, usize)> for DMatrix<T> {
    type Output = T;

    /// The entry in row `at.0` and column `at.1`.
    fn index(&self, at: (usize, usize)) -> (r: &T)
        ensures
            *r == self.grid().at(at.0 as int, at.1 as int),
    {
        let p: usize = position(
            at.0,
            at.1,
            self.data.len(),
            self.nrows,
            self.ncols,
            self.col_stride,
        );
        proof {
            layout::lemma_grid_at(
                self.data@,
                self.nrows as nat,
                self.ncols as nat,
                self.col_stride as nat,
                at.0 as int,
                at.1 as int,
            );
        }
        &self.data[p]
    }
}

/// A matrix whose shape is part of its type.
#[derive(Clone, Debug)]
pub struct SMatrix<T: Real, const R: usize, const C: usize> {
    /// The matrix of run-time shape that holds the entries.
    pub matrix: DMatrix<T>,
}

impl<T: Real, const R: usize, const C: usize> SMatrix<T, R, C> {
    /// Whether the matrix inside has the shape that the type says.
    pub open spec fn wf(&self) -> bool {
        self.matrix.wf() && self.matrix.nrows == R && self.matrix.ncols == C
    }

    /// The matrix of zeros.
    pub fn zeros() -> (r: Self)
        requires
            R * C <= usize::MAX,
        ensures
            r.wf(),
            r.matrix.compact(),
            r.matrix.grid() == Grid::tabulate(R as nat, C as nat, |i: int, j: int| T::zero()),
    {
        SMatrix { matrix: DMatrix::zeros(R, C) }
    }

    /// The matrix whose rows, one after another, are the entries of `slice`.
    pub fn from_row_slice(slice: &[T]) -> (r: Self)
        requires
            R * C == slice@.len(),
        ensures
            r.wf(),
            r.matrix.compact(),
            r.matrix.grid() == Grid::tabulate(
                R as nat,
                C as nat,
                |i: int, j: int| slice@[i * C + j],
            ),
    {
        SMatrix { matrix: DMatrix::from_row_slice(R, C, slice) }
    }

    /// The number of rows.
    pub fn nrows(&self) -> (r: usize)
        ensures
            r == R,
    {
        R
    }

    /// The number of columns.
    pub fn ncols(&self) -> (r: usize)
        ensures
            r == C,
    {
        C
    }
}

impl<T: Real, const R: usize, const C: usize> std::ops::Deref for SMatrix<T, R, C> {
    type Target = DMatrix<T>;

    /// The matrix of run-time shape inside.
    fn deref(&self) -> (r: &DMatrix<T>)
        ensures
            *r == self.matrix,
    {
        &self.matrix
    }
}

impl<T: Real, const R: usize, const C: usize> std::ops::DerefMut for SMatrix<T, R, C> {
    /// The matrix of run-time shape inside, open to change.
    fn deref_mut(&mut self) -> (r: &mut DMatrix<T>)
        ensures
            *r == old(self).matrix,
            final(self).matrix == *final(r),
    {
        &mut self.matrix
    }
}

/// Every entry of a matrix is what the storage holds everywhere.
proof fn lemma_uniform<T: Real>(m: &DMatrix<T>, value: T)
    requires
        m.wf(),
        forall|p: int| 0 <= p < m.data@.len() ==> m.data@[p] == value,
    ensures
        m.grid() == Grid::tabulate(m.nrows as nat, m.ncols as nat, |i: int, j: int| value),
{
    let g = m.grid();
    let t = Grid::tabulate(m.nrows as nat, m.ncols as nat, |i: int, j: int| value);
    assert forall|j: int| 0 <= j < g.cols.len() implies g.cols[j] == t.cols[j] by {
        layout::lemma_column_start(
            j,
            m.data@.len(),
            m.nrows as nat,
            m.ncols as nat,
            m.col_stride as nat,
        );
        assert(g.cols[j] =~= t.cols[j]);
    }
    assert(g.cols =~= t.cols);
}

} // verus!
