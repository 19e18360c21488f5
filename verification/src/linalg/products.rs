//! Products of matrices and vectors.
use vstd::prelude::*;

use crate::fixed::Fixed;
use crate::linalg::kernels;
use crate::linalg::kernels::{axcpy_slices, dot_slices, rescaled, scaled_sum};
use crate::linalg::layout;
use crate::linalg::layout::Grid;
use crate::linalg::matrix::{DMatrix, SMatrix};
use crate::linalg::rows::RowsViewMut;
use crate::linalg::vector::{DVector, DVectorView, DVectorViewMut};
use crate::linalg::view::{MatrixView, MatrixViewMut};
use crate::scalar::Real;

verus! {

/// Anything that can be read as a matrix.
pub trait MatrixLike<T: Real> {
    /// Whether the parts fit together.
    spec fn valid(&self) -> bool;

    /// The matrix.
    spec fn entries(&self) -> Grid<T>;

    /// The distance between the starts of two neighbouring columns.
    spec fn distance(&self) -> usize;

    /// The number of rows.
    fn nrows(&self) -> (r: usize)
        requires
            self.valid(),
        ensures
            r == self.entries().nrows,
    ;

    /// The number of columns.
    fn ncols(&self) -> (r: usize)
        requires
            self.valid(),
        ensures
            r == self.entries().cols.len(),
    ;

    /// A copy of column `j`.
    fn col(&self, j: usize) -> (r: DVector<T>)
        requires
            self.valid(),
            j < self.entries().cols.len(),
        ensures
            r@ == self.entries().cols[j as int],
            r@.len() == self.entries().nrows,
    ;

    /// A view of the whole matrix.
    fn full_view(&self) -> (r: MatrixView<'_, T>)
        requires
            self.valid(),
        ensures
            r.wf(),
            r.grid() == self.entries(),
            r.col_stride == self.distance(),
    ;

    /// The distances between neighbouring rows and between neighbouring columns.
    fn strides(&self) -> (r: (usize, usize))
        ensures
            r == (1usize, self.distance()),
    ;
}

impl<T: Real> MatrixLike<T> for DMatrix<T> {
    open spec fn valid(&self) -> bool {
        self.wf()
    }

    open spec fn entries(&self) -> Grid<T> {
        self.grid()
    }

    open spec fn distance(&self) -> usize {
        self.col_stride
    }

    fn nrows(&self) -> (r: usize) {
        self.nrows
    }

    fn ncols(&self) -> (r: usize) {
        self.ncols
    }

    fn col(&self, j: usize) -> (r: DVector<T>) {
        self.column(j)
    }

    fn full_view(&self) -> (r: MatrixView<'_, T>) {
        self.as_view()
    }

    fn strides(&self) -> (r: (usize, usize)) {
        (1, self.col_stride)
    }
}

impl<'a, T: Real> MatrixLike<T> for MatrixView<'a, T> {
    open spec fn valid(&self) -> bool {
        self.wf()
    }

    open spec fn entries(&self) -> Grid<T> {
        self.grid()
    }

    open spec fn distance(&self) -> usize {
        self.col_stride
    }

    fn nrows(&self) -> (r: usize) {
        self.nrows
    }

    fn ncols(&self) -> (r: usize) {
        self.ncols
    }

    fn col(&self, j: usize) -> (r: DVector<T>) {
        self.column(j)
    }

    fn full_view(&self) -> (r: MatrixView<'_, T>) {
        *self
    }

    fn strides(&self) -> (r: (usize, usize)) {
        (1, self.col_stride)
    }
}

impl<'a, T: Real> MatrixLike<T> for MatrixViewMut<'a, T> {
    open spec fn valid(&self) -> bool {
        self.wf()
    }

    open spec fn entries(&self) -> Grid<T> {
        self.grid()
    }

    open spec fn distance(&self) -> usize {
        self.col_stride
    }

    fn nrows(&self) -> (r: usize) {
        self.nrows
    }

    fn ncols(&self) -> (r: usize) {
        self.ncols
    }

    fn col(&self, j: usize) -> (r: DVector<T>) {
        self.full_view().column(j)
    }

    fn full_view(&self) -> (r: MatrixView<'_, T>) {
        MatrixView {
            data: self.data,
            nrows: self.nrows,
            ncols: self.ncols,
            col_stride: self.col_stride,
        }
    }

    fn strides(&self) -> (r: (usize, usize)) {
        (1, self.col_stride)
    }
}

impl<T: Real, const R: usize, const C: usize> MatrixLike<T> for SMatrix<T, R, C> {
    open spec fn valid(&self) -> bool {
        self.wf()
    }

    open spec fn entries(&self) -> Grid<T> {
        self.matrix.grid()
    }

    open spec fn distance(&self) -> usize {
        self.matrix.col_stride
    }

    fn nrows(&self) -> (r: usize) {
        R
    }

    fn ncols(&self) -> (r: usize) {
        C
    }

    fn col(&self, j: usize) -> (r: DVector<T>) {
        self.matrix.column(j)
    }

    fn full_view(&self) -> (r: MatrixView<'_, T>) {
        self.matrix.as_view()
    }

    fn strides(&self) -> (r: (usize, usize)) {
        (1, self.matrix.col_stride)
    }
}

/// Anything whose columns can be read one by one.
pub trait ColAccess<T: Real> {
    /// Whether the parts fit together.
    spec fn readable(&self) -> bool;

    /// The matrix.
    spec fn columns_read(&self) -> Grid<T>;

    /// The number of rows.
    fn nrows(&self) -> (r: usize)
        requires
            self.readable(),
        ensures
            r == self.columns_read().nrows,
    ;

    /// The number of columns.
    fn ncols(&self) -> (r: usize)
        requires
            self.readable(),
        ensures
            r == self.columns_read().cols.len(),
    ;

    /// A copy of column `j`.
    fn col(&self, j: usize) -> (r: DVector<T>)
        requires
            self.readable(),
            j < self.columns_read().cols.len(),
        ensures
            r@ == self.columns_read().cols[j as int],
            r@.len() == self.columns_read().nrows,
    ;
}

impl<T: Real, M: MatrixLike<T>> ColAccess<T> for M {
    open spec fn readable(&self) -> bool {
        self.valid()
    }

    open spec fn columns_read(&self) -> Grid<T> {
        self.entries()
    }

    fn nrows(&self) -> (r: usize) {
        MatrixLike::nrows(self)
    }

    fn ncols(&self) -> (r: usize) {
        MatrixLike::ncols(self)
    }

    fn col(&self, j: usize) -> (r: DVector<T>) {
        MatrixLike::col(self, j)
    }
}

/// Sets `y` to `alpha * a * x + beta * y`.
fn gemv_slice<T: Real, M: ColAccess<T>>(y: &mut [T], alpha: T, a: &M, x: &[T], beta: T)
    requires
        a.readable(),
        a.columns_read().nrows == old(y)@.len(),
        a.columns_read().cols.len() == x@.len(),
    ensures
        final(y)@ == kernels::gemv(alpha, a.columns_read().cols, x@, beta, old(y)@),
{
    let ghost before = y@;
    let ghost cols = a.columns_read().cols;
    let n: usize = a.ncols();
    if n == 0 {
        let len: usize = y.len();
        for i in 0..len
            invariant
                len == y@.len(),
                len == before.len(),
                forall|k: int| 0 <= k < i ==> #[trigger] y@[k] == rescaled(beta, before[k]),
                forall|k: int| i <= k < len ==> #[trigger] y@[k] == before[k],
        {
            let e = rescaled(beta, y[i]);
            y[i] = e;
        }
        assert(y@ =~= kernels::gemv(alpha, cols, x@, beta, before));
        return;
    }
    for j in 0..n
        invariant
            a.readable(),
            cols == a.columns_read().cols,
            n == cols.len(),
            n == x@.len(),
            a.columns_read().nrows == before.len(),
            y@ == Seq::new(
                before.len(),
                |i: int|
                    kernels::row_sum(alpha, kernels::row(cols, i), x@, beta, before[i], j as nat),
            ),
    {
        let ghost at_hand = y@;
        let a_col = a.col(j);
        let b = if j == 0 {
            beta
        } else {
            T::one()
        };
        axcpy_slices(y, alpha, a_col.data.as_slice(), x[j], b);
        assert(y@ =~= Seq::new(
            before.len(),
            |i: int|
                kernels::row_sum(alpha, kernels::row(cols, i), x@, beta, before[i], (j + 1) as nat),
        ));
    }
    assert(y@ =~= kernels::gemv(alpha, cols, x@, beta, before));
}

/// Sets `y` to `alpha * transpose(a) * x + beta * y`.
fn gemv_tr_slice<T: Real, M: ColAccess<T>>(y: &mut [T], alpha: T, a: &M, x: &[T], beta: T)
    requires
        a.readable(),
        a.columns_read().nrows == x@.len(),
        a.columns_read().cols.len() == old(y)@.len(),
    ensures
        final(y)@ == kernels::gemv_tr(alpha, a.columns_read().cols, x@, beta, old(y)@),
{
    let ghost before = y@;
    let n: usize = a.ncols();
    for j in 0..n
        invariant
            a.readable(),
            n == y@.len(),
            n == before.len(),
            n == a.columns_read().cols.len(),
            a.columns_read().nrows == x@.len(),
            forall|k: int|
                0 <= k < j ==> #[trigger] y@[k] == scaled_sum(
                    alpha,
                    kernels::dot(a.columns_read().cols[k], x@),
                    beta,
                    before[k],
                ),
            forall|k: int| j <= k < n ==> #[trigger] y@[k] == before[k],
    {
        let a_col = a.col(j);
        let d = dot_slices(a_col.data.as_slice(), x);
        let e = scaled_sum(alpha, d, beta, y[j]);
        y[j] = e;
    }
    assert(y@ =~= kernels::gemv_tr(alpha, a.columns_read().cols, x@, beta, before));
}

impl<T: Real> DVector<T> {
    /// Sets the vector to `alpha * a * x + beta * self`. With a zero `beta` the old entries do not
    /// count.
    pub fn gemv<M: ColAccess<T>>(&mut self, alpha: T, a: &M, x: &DVectorView<'_, T>, beta: T)
        requires
            a.readable(),
            a.columns_read().nrows == old(self)@.len(),
            a.columns_read().cols.len() == x@.len(),
        ensures
            final(self)@ == kernels::gemv(alpha, a.columns_read().cols, x@, beta, old(self)@),
    {
        gemv_slice(self.data.as_mut_slice(), alpha, a, x.data, beta);
    }

    /// Sets the vector to `alpha * transpose(a) * x + beta * self`. With a zero `beta` the old
    /// entries do not count.
    pub fn gemv_tr<M: ColAccess<T>>(&mut self, alpha: T, a: &M, x: &DVectorView<'_, T>, beta: T)
        requires
            a.readable(),
            a.columns_read().nrows == x@.len(),
            a.columns_read().cols.len() == old(self)@.len(),
        ensures
            final(self)@ == kernels::gemv_tr(alpha, a.columns_read().cols, x@, beta, old(self)@),
    {
        gemv_tr_slice(self.data.as_mut_slice(), alpha, a, x.data, beta);
    }
}

impl<'a, T: Real> DVectorViewMut<'a, T> {
    /// Sets the viewed rows to `alpha * transpose(a) * x + beta * self`. With a zero `beta` the old
    /// entries do not count.
    pub fn gemv_tr<M: ColAccess<T>>(&mut self, alpha: T, a: &M, x: &DVectorView<'_, T>, beta: T)
        requires
            a.readable(),
            a.columns_read().nrows == x@.len(),
            a.columns_read().cols.len() == old(self)@.len(),
        ensures
            final(self)@ == kernels::gemv_tr(alpha, a.columns_read().cols, x@, beta, old(self)@),
            final(final(self).data)@ == final(old(self).data)@,
    {
        gemv_tr_slice(self.data, alpha, a, x.data, beta);
    }
}

/// The entries of one row or column, in their order.
pub type Line<T> = Seq<T>;

/// A scalar type with a kernel for products of large matrices.
///
/// Such a kernel blocks and vectorises its loops, so that the order in which it adds the terms of
/// an entry is its own. What it makes of an entry is a function of the row and the column that
/// meet there, of the two factors and the old entry, and of where the entry is in a result of
/// which shape: at the edges of its blocks a kernel may round in another order.
pub trait ProductKernel: Real {
    /// What the kernel makes of the entry `c` where `row` and `col` meet, at the given row and
    /// column of a result with the given numbers of rows and columns.
    spec fn spec_product_entry(
        alpha: Self,
        row: Line<Self>,
        col: Line<Self>,
        beta: Self,
        c: Self,
        at: (usize, usize),
        shape: (usize, usize),
    ) -> Self;

    /// Sets `c` to `alpha * a * b + beta * c`.
    fn product(
        alpha: Self,
        a: &MatrixView<'_, Self>,
        b: &MatrixView<'_, Self>,
        beta: Self,
        c: &mut MatrixViewMut<'_, Self>,
    )
        requires
            a.wf(),
            b.wf(),
            old(c).wf(),
            a.nrows == old(c).nrows,
            a.ncols == b.nrows,
            b.ncols == old(c).ncols,
        ensures
            final(c).wf(),
            final(c).only_entries_changed(old(c)),
            final(c).grid() == Grid::tabulate(
                old(c).nrows as nat,
                old(c).ncols as nat,
                |i: int, j: int|
                    Self::spec_product_entry(
                        alpha,
                        a.grid().row(i),
                        b.grid().cols[j],
                        beta,
                        old(c).grid().at(i, j),
                        (i as usize, j as usize),
                        (old(c).nrows, old(c).ncols),
                    ),
            ),
            final(final(c).data)@ == final(old(c).data)@,
    ;

    /// With a zero factor for the old entry, the kernel does not look at it.
    proof fn law_zero_beta(
        alpha: Self,
        row: Line<Self>,
        col: Line<Self>,
        beta: Self,
        c: Self,
        d: Self,
        at: (usize, usize),
        shape: (usize, usize),
    )
        requires
            kernels::is_zero(beta),
        ensures
            Self::spec_product_entry(alpha, row, col, beta, c, at, shape)
                == Self::spec_product_entry(alpha, row, col, beta, d, at, shape),
    ;
}

/// `alpha * a * b + beta * c`, column by column.
pub open spec fn product_by_columns<T: Real>(
    alpha: T,
    a: Grid<T>,
    b: Grid<T>,
    beta: T,
    c: Grid<T>,
) -> Grid<T> {
    Grid {
        nrows: c.nrows,
        cols: Seq::new(
            c.cols.len(),
            |j: int| kernels::gemv(alpha, a.cols, b.cols[j], beta, c.cols[j]),
        ),
    }
}

/// The largest number of rows or columns with which a matrix still counts as small.
pub const SMALL_DIM: usize = 5;

/// Whether a product with a result of `nrows` rows and `ncols` columns and `inner` terms for each
/// entry is one of large matrices.
pub open spec fn spec_is_large(nrows: usize, ncols: usize, inner: usize) -> bool {
    nrows > SMALL_DIM && ncols > SMALL_DIM && inner > SMALL_DIM
}

/// Tells whether a product with a result of `nrows` rows and `ncols` columns and `inner` terms for
/// each entry is one of large matrices.
#[verifier::when_used_as_spec(spec_is_large)]
pub fn is_large(nrows: usize, ncols: usize, inner: usize) -> (r: bool)
    ensures
        r == spec_is_large(nrows, ncols, inner),
{
    nrows > SMALL_DIM && ncols > SMALL_DIM && inner > SMALL_DIM
}

/// `alpha * a * b + beta * c`: large matrices by the kernel of the scalar type, others column by
/// column.
pub open spec fn gemm<T: ProductKernel>(
    alpha: T,
    a: Grid<T>,
    b: Grid<T>,
    beta: T,
    c: Grid<T>,
) -> Grid<T> {
    if is_large(c.nrows as usize, c.cols.len() as usize, a.cols.len() as usize) {
        Grid::tabulate(
            c.nrows,
            c.cols.len(),
            |i: int, j: int|
                T::spec_product_entry(
                    alpha,
                    a.row(i),
                    b.cols[j],
                    beta,
                    c.at(i, j),
                    (i as usize, j as usize),
                    (c.nrows as usize, c.cols.len() as usize),
                ),
        )
    } else {
        product_by_columns(alpha, a, b, beta, c)
    }
}

/// `alpha * transpose(a) * b + beta * c`.
pub open spec fn gemm_tr<T: Real>(
    alpha: T,
    a: Grid<T>,
    b: Grid<T>,
    beta: T,
    c: Grid<T>,
) -> Grid<T> {
    Grid {
        nrows: c.nrows,
        cols: Seq::new(
            c.cols.len(),
            |j: int| kernels::gemv_tr(alpha, a.cols, b.cols[j], beta, c.cols[j]),
        ),
    }
}

/// `alpha * x * transpose(y) + beta * c`.
pub open spec fn ger<T: Real>(alpha: T, x: Seq<T>, y: Seq<T>, beta: T, c: Grid<T>) -> Grid<T> {
    Grid {
        nrows: c.nrows,
        cols: Seq::new(c.cols.len(), |j: int| kernels::axpy(alpha.mul(y[j]), x, beta, c.cols[j])),
    }
}

/// `alpha * transpose(rhs) * mid * rhs + beta * c`.
pub open spec fn quadform<T: Real>(
    alpha: T,
    mid: Grid<T>,
    rhs: Grid<T>,
    beta: T,
    c: Grid<T>,
) -> Grid<T> {
    Grid {
        nrows: c.nrows,
        cols: Seq::new(
            c.cols.len(),
            |j: int|
                kernels::gemv_tr(
                    alpha,
                    rhs.cols,
                    kernels::gemv(
                        T::one(),
                        mid.cols,
                        rhs.cols[j],
                        T::zero(),
                        Seq::new(mid.nrows, |i: int| T::zero()),
                    ),
                    beta,
                    c.cols[j],
                ),
        ),
    }
}

/// Sets `c` to `alpha * a * b + beta * c`, column by column.
fn multiply_by_columns<T: Real, Ma: MatrixLike<T>, Mb: MatrixLike<T>>(
    c: &mut MatrixViewMut<'_, T>,
    alpha: T,
    a: &Ma,
    b: &Mb,
    beta: T,
)
    requires
        a.valid(),
        b.valid(),
        old(c).wf(),
        a.entries().nrows == old(c).nrows,
        a.entries().cols.len() == b.entries().nrows,
        b.entries().cols.len() == old(c).ncols,
    ensures
        final(c).wf(),
        final(c).only_entries_changed(old(c)),
        final(c).grid() == product_by_columns(
            alpha,
            a.entries(),
            b.entries(),
            beta,
            old(c).grid(),
        ),
        final(final(c).data)@ == final(old(c).data)@,
{
    let ghost before = *c;
    let ghost target = product_by_columns(
        alpha,
        a.entries(),
        b.entries(),
        beta,
        before.grid(),
    );
    let ncols: usize = c.ncols;
    for j in 0..ncols
        invariant
            a.valid(),
            b.valid(),
            c.wf(),
            c.only_entries_changed(&before),
            c.ncols == ncols,
            a.entries().nrows == c.nrows,
            a.entries().cols.len() == b.entries().nrows,
            b.entries().cols.len() == ncols,
            target == product_by_columns(
                alpha,
                a.entries(),
                b.entries(),
                beta,
                before.grid(),
            ),
            forall|k: int| 0 <= k < j ==> #[trigger] c.grid().cols[k] == target.cols[k],
            forall|k: int| j <= k < ncols ==> #[trigger] c.grid().cols[k] == before.grid().cols[k],
            final(c.data)@ == final(before.data)@,
    {
        let b_col = b.col(j);
        let y = c.column_mut(j);
        gemv_slice(y.data, alpha, a, b_col.data.as_slice(), beta);
    }
    assert(c.grid().cols =~= target.cols);
}

impl ProductKernel for Fixed {
    /// The same sum as column by column.
    open spec fn spec_product_entry(
        alpha: Self,
        row: Line<Self>,
        col: Line<Self>,
        beta: Self,
        c: Self,
        at: (usize, usize),
        shape: (usize, usize),
    ) -> Self {
        kernels::gemv_entry(alpha, row, col, beta, c)
    }

    fn product(
        alpha: Self,
        a: &MatrixView<'_, Self>,
        b: &MatrixView<'_, Self>,
        beta: Self,
        c: &mut MatrixViewMut<'_, Self>,
    ) {
        let ghost before = c.grid();
        proof {
            layout::lemma_grid_wf(
                c.data@,
                c.nrows as nat,
                c.ncols as nat,
                c.col_stride as nat,
            );
        }
        multiply_by_columns(c, alpha, a, b, beta);
        proof {
            layout::lemma_same_entries(
                c.grid(),
                Grid::tabulate(
                    before.nrows,
                    before.cols.len(),
                    |i: int, j: int|
                        Self::spec_product_entry(
                            alpha,
                            a.grid().row(i),
                            b.grid().cols[j],
                            beta,
                            before.at(i, j),
                            (i as usize, j as usize),
                            (before.nrows as usize, before.cols.len() as usize),
                        ),
                ),
            );
        }
    }

    proof fn law_zero_beta(
        alpha: Self,
        row: Line<Self>,
        col: Line<Self>,
        beta: Self,
        c: Self,
        d: Self,
        at: (usize, usize),
        shape: (usize, usize),
    ) {
        if row.len() > 0 {
            lemma_zero_beta_row_sum(alpha, row, col, beta, c, d, row.len());
        }
    }
}

impl<'a, T: ProductKernel> MatrixViewMut<'a, T> {
    /// Sets the viewed matrix to `alpha * a * b + beta * self`. With a zero `beta` the old entries
    /// do not count.
    pub fn gemm<Ma: MatrixLike<T>, Mb: MatrixLike<T>>(
        &mut self,
        alpha: T,
        a: &Ma,
        b: &Mb,
        beta: T,
    )
        requires
            a.valid(),
            b.valid(),
            old(self).wf(),
            a.entries().nrows == old(self).nrows,
            a.entries().cols.len() == b.entries().nrows,
            b.entries().cols.len() == old(self).ncols,
        ensures
            final(self).wf(),
            final(self).only_entries_changed(old(self)),
            final(self).grid() == gemm(alpha, a.entries(), b.entries(), beta, old(self).grid()),
            final(final(self).data)@ == final(old(self).data)@,
    {
        if is_large(self.nrows, self.ncols, a.ncols()) {
            T::product(alpha, &a.full_view(), &b.full_view(), beta, self);
        } else {
            multiply_by_columns(self, alpha, a, b, beta);
        }
    }
}

impl<'a, T: Real> MatrixViewMut<'a, T> {
    /// Sets the viewed matrix to `alpha * x * transpose(y) + beta * self`. With a zero `beta` the
    /// old entries do not count.
    pub fn ger(&mut self, alpha: T, x: &DVector<T>, y: &DVector<T>, beta: T)
        requires
            old(self).wf(),
            x@.len() == old(self).nrows,
            y@.len() == old(self).ncols,
        ensures
            final(self).wf(),
            final(self).only_entries_changed(old(self)),
            final(self).grid() == ger(alpha, x@, y@, beta, old(self).grid()),
            final(final(self).data)@ == final(old(self).data)@,
    {
        let ghost before = *self;
        let ghost target = ger(alpha, x@, y@, beta, before.grid());
        let ncols: usize = self.ncols;
        for j in 0..ncols
            invariant
                self.wf(),
                self.only_entries_changed(&before),
                self.ncols == ncols,
                x@.len() == self.nrows,
                y@.len() == ncols,
                target == ger(alpha, x@, y@, beta, before.grid()),
                forall|k: int| 0 <= k < j ==> #[trigger] self.grid().cols[k] == target.cols[k],
                forall|k: int|
                    j <= k < ncols ==> #[trigger] self.grid().cols[k] == before.grid().cols[k],
                final(self.data)@ == final(before.data)@,
        {
            let val = alpha.mul(y.data[j]);
            self.column_mut(j).axpy(val, x, beta);
        }
        assert(self.grid().cols =~= target.cols);
    }

    /// Sets the viewed matrix to `alpha * transpose(rhs) * mid * rhs + beta * self`. With a zero
    /// `beta` the old entries do not count.
    pub fn quadform<M: MatrixLike<T>>(&mut self, alpha: T, mid: &M, rhs: &M, beta: T)
        requires
            old(self).wf(),
            mid.valid(),
            rhs.valid(),
            mid.entries().cols.len() == mid.entries().nrows,
            rhs.entries().nrows == mid.entries().nrows,
            old(self).nrows == rhs.entries().cols.len(),
            old(self).ncols == rhs.entries().cols.len(),
        ensures
            final(self).wf(),
            final(self).only_entries_changed(old(self)),
            final(self).grid() == quadform(
                alpha,
                mid.entries(),
                rhs.entries(),
                beta,
                old(self).grid(),
            ),
            final(final(self).data)@ == final(old(self).data)@,
    {
        let ghost before = *self;
        let ghost target = quadform(alpha, mid.entries(), rhs.entries(), beta, before.grid());
        let dim: usize = MatrixLike::nrows(mid);
        let ncols: usize = self.ncols;
        let mut work = DVector::zeros(dim);
        for j in 0..ncols
            invariant
                self.wf(),
                self.only_entries_changed(&before),
                self.nrows == ncols,
                self.ncols == ncols,
                mid.valid(),
                rhs.valid(),
                work@.len() == dim,
                mid.entries().nrows == dim,
                mid.entries().cols.len() == dim,
                rhs.entries().nrows == dim,
                rhs.entries().cols.len() == ncols,
                target == quadform(alpha, mid.entries(), rhs.entries(), beta, before.grid()),
                forall|k: int| 0 <= k < j ==> #[trigger] self.grid().cols[k] == target.cols[k],
                forall|k: int|
                    j <= k < ncols ==> #[trigger] self.grid().cols[k] == before.grid().cols[k],
                final(self.data)@ == final(before.data)@,
        {
            let rhs_col = MatrixLike::col(rhs, j);
            proof {
                lemma_zero_beta_gemv(
                    T::one(),
                    mid.entries().cols,
                    rhs_col@,
                    work@,
                    Seq::new(dim as nat, |i: int| T::zero()),
                );
            }
            work.gemv(T::one(), mid, &rhs_col.as_view(), T::zero());
            self.column_mut(j).gemv_tr(alpha, rhs, &work.as_view(), beta);
        }
        assert(self.grid().cols =~= target.cols);
    }

    /// Sets `out` to the product of the transpose of the viewed matrix and `rhs`.
    pub fn tr_mul_to(&self, rhs: &DVectorView<'_, T>, out: &mut DVector<T>)
        requires
            self.wf(),
            rhs@.len() == self.nrows,
            old(out)@.len() == self.ncols,
        ensures
            final(out)@ == kernels::gemv_tr(
                T::one(),
                self.grid().cols,
                rhs@,
                T::zero(),
                old(out)@,
            ),
    {
        out.gemv_tr(T::one(), self, rhs, T::zero());
    }

    /// Sets the viewed matrix to `alpha * transpose(a) * b + beta * self`. With a zero `beta` the
    /// old entries do not count.
    pub fn gemm_tr<Ma: MatrixLike<T>, Mb: MatrixLike<T>>(
        &mut self,
        alpha: T,
        a: &Ma,
        b: &Mb,
        beta: T,
    )
        requires
            old(self).wf(),
            a.valid(),
            b.valid(),
            a.entries().nrows == b.entries().nrows,
            a.entries().cols.len() == old(self).nrows,
            b.entries().cols.len() == old(self).ncols,
        ensures
            final(self).wf(),
            final(self).only_entries_changed(old(self)),
            final(self).grid() == gemm_tr(alpha, a.entries(), b.entries(), beta, old(self).grid()),
            final(final(self).data)@ == final(old(self).data)@,
    {
        let ghost before = *self;
        let ghost target = gemm_tr(alpha, a.entries(), b.entries(), beta, before.grid());
        let ncols: usize = self.ncols;
        for j in 0..ncols
            invariant
                self.wf(),
                self.only_entries_changed(&before),
                self.ncols == ncols,
                a.valid(),
                b.valid(),
                a.entries().nrows == b.entries().nrows,
                a.entries().cols.len() == self.nrows,
                b.entries().cols.len() == ncols,
                target == gemm_tr(alpha, a.entries(), b.entries(), beta, before.grid()),
                forall|k: int| 0 <= k < j ==> #[trigger] self.grid().cols[k] == target.cols[k],
                forall|k: int|
                    j <= k < ncols ==> #[trigger] self.grid().cols[k] == before.grid().cols[k],
                final(self.data)@ == final(before.data)@,
        {
            let b_col = b.col(j);
            self.column_mut(j).gemv_tr(alpha, a, &b_col.as_view(), beta);
        }
        assert(self.grid().cols =~= target.cols);
    }
}

impl<'a, T: ProductKernel> RowsViewMut<'a, T> {
    /// Sets the viewed rows to `alpha * a * b + beta * self`. With a zero `beta` the old entries
    /// do not count.
    pub fn gemm<Ma: MatrixLike<T>, Mb: MatrixLike<T>>(
        &mut self,
        alpha: T,
        a: &Ma,
        b: &Mb,
        beta: T,
    )
        requires
            a.valid(),
            b.valid(),
            old(self).wf(),
            a.entries().nrows == old(self).nrows,
            a.entries().cols.len() == b.entries().nrows,
            b.entries().cols.len() == old(self).columns@.len(),
            old(self).nrows * old(self).columns@.len() <= usize::MAX,
        ensures
            final(self).grid() == gemm(alpha, a.entries(), b.entries(), beta, old(self).grid()),
            final(self).nrows == old(self).nrows,
            final(self).columns@.len() == old(self).columns@.len(),
            forall|k: int|
                #![trigger final(self).columns@[k]]
                0 <= k < old(self).columns@.len() ==> final(final(self).columns@[k])@ == final(old(self).columns@[k])@,
    {
        let n: usize = self.columns.len();
        if is_large(self.nrows, n, a.ncols()) {
            let mut whole = self.gathered();
            T::product(
                alpha,
                &a.full_view(),
                &b.full_view(),
                beta,
                &mut whole.whole_mut(),
            );
            self.copy_from(&whole.as_view());
        } else {
            self.multiply_by_columns(alpha, a, b, beta);
        }
    }
}

impl<'a, T: Real> RowsViewMut<'a, T> {
    /// A copy of the viewed rows.
    fn gathered(&self) -> (m: DMatrix<T>)
        requires
            self.wf(),
            self.nrows * self.columns@.len() <= usize::MAX,
        ensures
            m.wf(),
            m.nrows == self.nrows,
            m.ncols == self.columns@.len(),
            m.grid() == self.grid(),
    {
        let n: usize = self.columns.len();
        let mut m = DMatrix::zeros(self.nrows, n);
        for j in 0..n
            invariant
                self.wf(),
                n == self.columns@.len(),
                m.wf(),
                m.nrows == self.nrows,
                m.ncols == n,
                forall|k: int| 0 <= k < j ==> #[trigger] m.grid().cols[k] == self.grid().cols[k],
        {
            assert(self.grid().cols[j as int].len() == self.nrows);
            let ghost at_hand = m.grid().cols;
            let mut whole = m.whole_mut();
            let column = whole.column_mut(j);
            kernels::copy_slice(column.data, &*self.columns[j]);
            assert(m.grid().cols == at_hand.update(j as int, self.columns@[j as int]@));
        }
        assert(m.grid().cols =~= self.grid().cols);
        m
    }

    fn multiply_by_columns<Ma: MatrixLike<T>, Mb: MatrixLike<T>>(
        &mut self,
        alpha: T,
        a: &Ma,
        b: &Mb,
        beta: T,
    )
        requires
            a.valid(),
            b.valid(),
            old(self).wf(),
            a.entries().nrows == old(self).nrows,
            a.entries().cols.len() == b.entries().nrows,
            b.entries().cols.len() == old(self).columns@.len(),
        ensures
            final(self).grid() == product_by_columns(
                alpha,
                a.entries(),
                b.entries(),
                beta,
                old(self).grid(),
            ),
            final(self).nrows == old(self).nrows,
            final(self).columns@.len() == old(self).columns@.len(),
            forall|k: int|
                #![trigger final(self).columns@[k]]
                0 <= k < old(self).columns@.len() ==> final(final(self).columns@[k])@ == final(old(self).columns@[k])@,
    {
        let ghost before = *self;
        let ghost target = product_by_columns(
            alpha,
            a.entries(),
            b.entries(),
            beta,
            before.grid(),
        );
        let n: usize = self.columns.len();
        for j in 0..n
            invariant
                a.valid(),
                b.valid(),
                a.entries().nrows == before.nrows,
                a.entries().cols.len() == b.entries().nrows,
                b.entries().cols.len() == n,
                target == product_by_columns(
                    alpha,
                    a.entries(),
                    b.entries(),
                    beta,
                    before.grid(),
                ),
                self.columns@.len() == n,
                n == before.columns@.len(),
                self.nrows == before.nrows,
                before.wf(),
                forall|k: int| 0 <= k < j ==> #[trigger] self.grid().cols[k] == target.cols[k],
                forall|k: int|
                    j <= k < n ==> #[trigger] self.grid().cols[k] == before.grid().cols[k],
                forall|k: int|
                    #![trigger self.columns@[k]]
                    0 <= k < n ==> final(self.columns@[k])@ == final(before.columns@[k])@,
        {
            assert(before.grid().cols[j as int].len() == before.nrows);
            let b_col = b.col(j);
            let y = self.column_mut(j);
            gemv_slice(y.data, alpha, a, b_col.data.as_slice(), beta);
        }
        assert(self.grid().cols =~= target.cols);
    }

    /// Sets the viewed rows to `alpha * x * transpose(y) + beta * self`. With a zero `beta` the
    /// old entries do not count.
    pub fn ger(&mut self, alpha: T, x: &DVector<T>, y: &DVector<T>, beta: T)
        requires
            old(self).wf(),
            x@.len() == old(self).nrows,
            y@.len() == old(self).columns@.len(),
        ensures
            final(self).grid() == ger(alpha, x@, y@, beta, old(self).grid()),
            final(self).nrows == old(self).nrows,
            final(self).columns@.len() == old(self).columns@.len(),
            forall|k: int|
                #![trigger final(self).columns@[k]]
                0 <= k < old(self).columns@.len() ==> final(final(self).columns@[k])@ == final(old(self).columns@[k])@,
    {
        let ghost before = *self;
        let ghost target = ger(alpha, x@, y@, beta, before.grid());
        let n: usize = self.columns.len();
        for j in 0..n
            invariant
                x@.len() == before.nrows,
                y@.len() == n,
                target == ger(alpha, x@, y@, beta, before.grid()),
                self.columns@.len() == n,
                n == before.columns@.len(),
                self.nrows == before.nrows,
                before.wf(),
                forall|k: int| 0 <= k < j ==> #[trigger] self.grid().cols[k] == target.cols[k],
                forall|k: int|
                    j <= k < n ==> #[trigger] self.grid().cols[k] == before.grid().cols[k],
                forall|k: int|
                    #![trigger self.columns@[k]]
                    0 <= k < n ==> final(self.columns@[k])@ == final(before.columns@[k])@,
        {
            assert(before.grid().cols[j as int].len() == before.nrows);
            let val = alpha.mul(y.data[j]);
            self.column_mut(j).axpy(val, x, beta);
        }
        assert(self.grid().cols =~= target.cols);
    }

    /// Sets the viewed rows to `alpha * transpose(rhs) * mid * rhs + beta * self`. With a zero
    /// `beta` the old entries do not count.
    pub fn quadform<M: MatrixLike<T>>(&mut self, alpha: T, mid: &M, rhs: &M, beta: T)
        requires
            old(self).wf(),
            mid.valid(),
            rhs.valid(),
            mid.entries().cols.len() == mid.entries().nrows,
            rhs.entries().nrows == mid.entries().nrows,
            old(self).nrows == rhs.entries().cols.len(),
            old(self).columns@.len() == rhs.entries().cols.len(),
        ensures
            final(self).grid() == quadform(
                alpha,
                mid.entries(),
                rhs.entries(),
                beta,
                old(self).grid(),
            ),
            final(self).nrows == old(self).nrows,
            final(self).columns@.len() == old(self).columns@.len(),
            forall|k: int|
                #![trigger final(self).columns@[k]]
                0 <= k < old(self).columns@.len() ==> final(final(self).columns@[k])@ == final(old(self).columns@[k])@,
    {
        let ghost before = *self;
        let ghost target = quadform(alpha, mid.entries(), rhs.entries(), beta, before.grid());
        let dim: usize = MatrixLike::nrows(mid);
        let n: usize = self.columns.len();
        let mut work = DVector::zeros(dim);
        for j in 0..n
            invariant
                before.nrows == n,
                mid.valid(),
                rhs.valid(),
                work@.len() == dim,
                mid.entries().nrows == dim,
                mid.entries().cols.len() == dim,
                rhs.entries().nrows == dim,
                rhs.entries().cols.len() == n,
                target == quadform(alpha, mid.entries(), rhs.entries(), beta, before.grid()),
                self.columns@.len() == n,
                n == before.columns@.len(),
                self.nrows == before.nrows,
                before.wf(),
                forall|k: int| 0 <= k < j ==> #[trigger] self.grid().cols[k] == target.cols[k],
                forall|k: int|
                    j <= k < n ==> #[trigger] self.grid().cols[k] == before.grid().cols[k],
                forall|k: int|
                    #![trigger self.columns@[k]]
                    0 <= k < n ==> final(self.columns@[k])@ == final(before.columns@[k])@,
        {
            assert(before.grid().cols[j as int].len() == before.nrows);
            let rhs_col = MatrixLike::col(rhs, j);
            proof {
                lemma_zero_beta_gemv(
                    T::one(),
                    mid.entries().cols,
                    rhs_col@,
                    work@,
                    Seq::new(dim as nat, |i: int| T::zero()),
                );
            }
            work.gemv(T::one(), mid, &rhs_col.as_view(), T::zero());
            self.column_mut(j).gemv_tr(alpha, rhs, &work.as_view(), beta);
        }
        assert(self.grid().cols =~= target.cols);
    }
}

impl<T: ProductKernel> DMatrix<T> {
    /// Sets the matrix to `alpha * a * b + beta * self`. With a zero `beta` the old entries do not
    /// count.
    pub fn gemm<Ma: MatrixLike<T>, Mb: MatrixLike<T>>(
        &mut self,
        alpha: T,
        a: &Ma,
        b: &Mb,
        beta: T,
    )
        requires
            a.valid(),
            b.valid(),
            old(self).wf(),
            a.entries().nrows == old(self).nrows,
            a.entries().cols.len() == b.entries().nrows,
            b.entries().cols.len() == old(self).ncols,
        ensures
            final(self).wf(),
            final(self).only_entries_changed(old(self)),
            final(self).grid() == gemm(alpha, a.entries(), b.entries(), beta, old(self).grid()),
    {
        self.whole_mut().gemm(alpha, a, b, beta);
    }
}

impl<T: Real> DMatrix<T> {
    /// Sets the matrix to `alpha * x * transpose(y) + beta * self`. With a zero `beta` the
    /// old entries do not count.
    pub fn ger(&mut self, alpha: T, x: &DVector<T>, y: &DVector<T>, beta: T)
        requires
            old(self).wf(),
            x@.len() == old(self).nrows,
            y@.len() == old(self).ncols,
        ensures
            final(self).wf(),
            final(self).only_entries_changed(old(self)),
            final(self).grid() == ger(alpha, x@, y@, beta, old(self).grid()),
    {
        self.whole_mut().ger(alpha, x, y, beta);
    }

    /// Sets the matrix to `alpha * transpose(rhs) * mid * rhs + beta * self`. With a zero
    /// `beta` the old entries do not count.
    pub fn quadform<M: MatrixLike<T>>(&mut self, alpha: T, mid: &M, rhs: &M, beta: T)
        requires
            old(self).wf(),
            mid.valid(),
            rhs.valid(),
            mid.entries().cols.len() == mid.entries().nrows,
            rhs.entries().nrows == mid.entries().nrows,
            old(self).nrows == rhs.entries().cols.len(),
            old(self).ncols == rhs.entries().cols.len(),
        ensures
            final(self).wf(),
            final(self).only_entries_changed(old(self)),
            final(self).grid() == quadform(
                alpha,
                mid.entries(),
                rhs.entries(),
                beta,
                old(self).grid(),
            ),
    {
        self.whole_mut().quadform(alpha, mid, rhs, beta);
    }

    /// Sets `out` to the product of the transpose of the matrix and `rhs`.
    pub fn tr_mul_to(&self, rhs: &DVectorView<'_, T>, out: &mut DVector<T>)
        requires
            self.wf(),
            rhs@.len() == self.nrows,
            old(out)@.len() == self.ncols,
        ensures
            final(out)@ == kernels::gemv_tr(
                T::one(),
                self.grid().cols,
                rhs@,
                T::zero(),
                old(out)@,
            ),
    {
        out.gemv_tr(T::one(), self, rhs, T::zero());
    }

    /// Sets the matrix to `alpha * transpose(a) * b + beta * self`. With a zero `beta` the
    /// old entries do not count.
    pub fn gemm_tr<Ma: MatrixLike<T>, Mb: MatrixLike<T>>(
        &mut self,
        alpha: T,
        a: &Ma,
        b: &Mb,
        beta: T,
    )
        requires
            old(self).wf(),
            a.valid(),
            b.valid(),
            a.entries().nrows == b.entries().nrows,
            a.entries().cols.len() == old(self).nrows,
            b.entries().cols.len() == old(self).ncols,
        ensures
            final(self).wf(),
            final(self).only_entries_changed(old(self)),
            final(self).grid() == gemm_tr(alpha, a.entries(), b.entries(), beta, old(self).grid()),
    {
        self.whole_mut().gemm_tr(alpha, a, b, beta);
    }
}

/// With a zero factor for the old entries, `alpha * a * x + beta * y` does not depend on `y`.
pub proof fn lemma_zero_beta_gemv<T: Real>(
    alpha: T,
    a: Seq<Seq<T>>,
    x: Seq<T>,
    y: Seq<T>,
    z: Seq<T>,
)
    requires
        y.len() == z.len(),
    ensures
        kernels::gemv(alpha, a, x, T::zero(), y) == kernels::gemv(alpha, a, x, T::zero(), z),
{
    T::law_zero_one();
    assert forall|i: int| 0 <= i < y.len() implies kernels::gemv(alpha, a, x, T::zero(), y)[i]
        == kernels::gemv(alpha, a, x, T::zero(), z)[i] by {
        if a.len() > 0 {
            lemma_zero_beta_row_sum(alpha, kernels::row(a, i), x, T::zero(), y[i], z[i], a.len());
        }
    }
    assert(kernels::gemv(alpha, a, x, T::zero(), y) =~= kernels::gemv(
        alpha,
        a,
        x,
        T::zero(),
        z,
    ));
}

/// With a zero factor for the old entry, the sum along a row does not depend on it.
proof fn lemma_zero_beta_row_sum<T: Real>(
    alpha: T,
    row: Seq<T>,
    x: Seq<T>,
    beta: T,
    y: T,
    z: T,
    k: nat,
)
    requires
        kernels::is_zero(beta),
        k > 0,
    ensures
        kernels::row_sum(alpha, row, x, beta, y, k) == kernels::row_sum(
            alpha,
            row,
            x,
            beta,
            z,
            k,
        ),
    decreases k,
{
    if k > 1 {
        lemma_zero_beta_row_sum(alpha, row, x, beta, y, z, (k - 1) as nat);
    }
}

} // verus!
