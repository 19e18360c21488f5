//! How a matrix lies in a flat slice: column after column, at a fixed distance.
//!
//! Entry `(i, j)` of a matrix with column distance `stride` stands at `j * stride + i`. A block of
//! rows keeps the distance of the matrix that it is taken from, so the columns of a block have
//! gaps between them. What stands in the gaps is no part of the block.
use vstd::prelude::*;

use crate::linalg::kernels;

verus! {

/// A matrix as a mathematical value: the number of rows, and the columns.
#[verifier::ext_equal]
pub ghost struct Grid<T> {
    pub nrows: nat,
    pub cols: Seq<Seq<T>>,
}

impl<T> Grid<T> {
    /// Every column has one entry for each row.
    pub open spec fn wf(self) -> bool {
        forall|j: int| 0 <= j < self.cols.len() ==> #[trigger] self.cols[j].len() == self.nrows
    }

    /// Entry `(i, j)`.
    pub open spec fn at(self, i: int, j: int) -> T {
        self.cols[j][i]
    }

    /// Row `i`.
    pub open spec fn row(self, i: int) -> Seq<T> {
        kernels::row(self.cols, i)
    }

    /// The same matrix with `v` at `(i, j)`.
    pub open spec fn set(self, i: int, j: int, v: T) -> Grid<T> {
        Grid { cols: self.cols.update(j, self.cols[j].update(i, v)), ..self }
    }

    /// The matrix with the entries `f(i, j)`.
    pub open spec fn tabulate(nrows: nat, ncols: nat, f: spec_fn(int, int) -> T) -> Grid<T> {
        Grid { nrows, cols: Seq::new(ncols, |j: int| Seq::new(nrows, |i: int| f(i, j))) }
    }

    /// The block of `nr` rows and `nc` columns whose first entry is `(r, c)`.
    pub open spec fn block(self, r: int, c: int, nr: nat, nc: nat) -> Grid<T> {
        Grid::tabulate(nr, nc, |i: int, j: int| self.at(r + i, c + j))
    }

    /// The same matrix with the entries of `b` in the block whose first entry is `(r, c)`.
    pub open spec fn with_block(self, r: int, c: int, b: Grid<T>) -> Grid<T> {
        Grid::tabulate(
            self.nrows,
            self.cols.len(),
            |i: int, j: int|
                if r <= i < r + b.nrows && c <= j < c + b.cols.len() {
                    b.at(i - r, j - c)
                } else {
                    self.at(i, j)
                },
        )
    }

    /// The matrix with rows and columns exchanged.
    pub open spec fn transposed(self) -> Grid<T> {
        Grid::tabulate(self.cols.len(), self.nrows, |i: int, j: int| self.at(j, i))
    }

    /// The same matrix with rows `a` and `b` exchanged in the columns from `lo` to before `hi`.
    pub open spec fn swap_rows(self, a: int, b: int, lo: int, hi: int) -> Grid<T> {
        Grid::tabulate(
            self.nrows,
            self.cols.len(),
            |i: int, j: int|
                if lo <= j < hi && i == a {
                    self.at(b, j)
                } else if lo <= j < hi && i == b {
                    self.at(a, j)
                } else {
                    self.at(i, j)
                },
        )
    }
}

/// Whether a slice of `len` entries holds a matrix of this shape without overlap of its columns.
pub open spec fn fits(len: nat, nrows: nat, ncols: nat, stride: nat) -> bool {
    &&& nrows <= stride
    &&& ncols > 0 ==> (ncols - 1) * stride + nrows <= len
}

/// The matrix of this shape that stands in `data`.
pub open spec fn grid_of<T>(data: Seq<T>, nrows: nat, ncols: nat, stride: nat) -> Grid<T> {
    Grid {
        nrows,
        cols: Seq::new(ncols, |j: int| data.subrange(j * stride, j * stride + nrows)),
    }
}

/// Whether position `p` of the slice holds an entry of the matrix.
pub open spec fn inside(p: int, nrows: nat, ncols: nat, stride: nat) -> bool {
    nrows > 0 && p % (stride as int) < nrows && p / (stride as int) < ncols
}

/// Whether two slices agree wherever no entry of the matrix stands.
pub open spec fn same_outside<T>(
    before: Seq<T>,
    after: Seq<T>,
    nrows: nat,
    ncols: nat,
    stride: nat,
) -> bool {
    &&& before.len() == after.len()
    &&& forall|p: int|
        0 <= p < after.len() && !inside(p, nrows, ncols, stride) ==> #[trigger] after[p]
            == before[p]
}

/// Two matrices of one shape with the same entries are the same.
pub proof fn lemma_same_entries<T>(a: Grid<T>, b: Grid<T>)
    requires
        a.wf(),
        b.wf(),
        a.nrows == b.nrows,
        a.cols.len() == b.cols.len(),
        forall|i: int, j: int|
            0 <= i < a.nrows && 0 <= j < a.cols.len() ==> #[trigger] a.at(i, j) == b.at(i, j),
    ensures
        a == b,
{
    assert forall|j: int| 0 <= j < a.cols.len() implies a.cols[j] == b.cols[j] by {
        assert forall|i: int| 0 <= i < a.nrows implies #[trigger] a.cols[j][i] == b.cols[j][i] by {
            assert(a.at(i, j) == b.at(i, j));
        }
        assert(a.cols[j] =~= b.cols[j]);
    }
    assert(a.cols =~= b.cols);
}

/// The entries after one of them is replaced.
pub proof fn lemma_set_entries<T>(g: Grid<T>, i: int, j: int, v: T)
    requires
        g.wf(),
        0 <= i < g.nrows,
        0 <= j < g.cols.len(),
    ensures
        g.set(i, j, v).wf(),
        forall|a: int, b: int|
            0 <= a < g.nrows && 0 <= b < g.cols.len() ==> #[trigger] g.set(i, j, v).at(a, b) == (
            if a == i && b == j {
                v
            } else {
                g.at(a, b)
            }),
{
    let h = g.set(i, j, v);
    assert forall|k: int| 0 <= k < h.cols.len() implies #[trigger] h.cols[k].len() == h.nrows by {
        assert(g.cols[k].len() == g.nrows);
    }
    assert(g.cols[j].len() == g.nrows);
}

/// Entry `(i, j)` stands in the slice, at a position that no other entry has.
pub proof fn lemma_position(i: int, j: int, len: nat, nrows: nat, ncols: nat, stride: nat)
    requires
        fits(len, nrows, ncols, stride),
        0 <= i < nrows,
        0 <= j < ncols,
    ensures
        0 <= j * stride,
        j * stride + i < len,
        (j * stride + i) / (stride as int) == j,
        (j * stride + i) % (stride as int) == i,
        inside(j * stride + i, nrows, ncols, stride),
{
    lemma_column_start(j, len, nrows, ncols, stride);
    vstd::arithmetic::div_mod::lemma_fundamental_div_mod_converse(
        j * stride + i,
        stride as int,
        j,
        i,
    );
}

/// Column `j` stands in the slice.
pub proof fn lemma_column_start(j: int, len: nat, nrows: nat, ncols: nat, stride: nat)
    requires
        fits(len, nrows, ncols, stride),
        0 <= j < ncols,
    ensures
        0 <= j * stride,
        j * stride + nrows <= len,
{
    assert(0 <= j * stride <= (ncols - 1) * stride) by (nonlinear_arith)
        requires
            0 <= j <= ncols - 1,
            0 <= stride,
    ;
}

/// The entries of the matrix that stands in a slice.
pub proof fn lemma_grid_at<T>(data: Seq<T>, nrows: nat, ncols: nat, stride: nat, i: int, j: int)
    requires
        fits(data.len(), nrows, ncols, stride),
        0 <= i < nrows,
        0 <= j < ncols,
    ensures
        grid_of(data, nrows, ncols, stride).at(i, j) == data[j * stride + i],
{
    lemma_column_start(j, data.len(), nrows, ncols, stride);
    lemma_position(i, j, data.len(), nrows, ncols, stride);
}

/// The matrix that stands in a slice is well-formed.
pub proof fn lemma_grid_wf<T>(data: Seq<T>, nrows: nat, ncols: nat, stride: nat)
    requires
        fits(data.len(), nrows, ncols, stride),
    ensures
        grid_of(data, nrows, ncols, stride).wf(),
{
    let g = grid_of(data, nrows, ncols, stride);
    assert forall|j: int| 0 <= j < g.cols.len() implies #[trigger] g.cols[j].len() == nrows by {
        lemma_column_start(j, data.len(), nrows, ncols, stride);
    }
}

/// Writing one entry changes that entry of the matrix, and nothing outside the matrix.
pub proof fn lemma_set<T>(data: Seq<T>, nrows: nat, ncols: nat, stride: nat, i: int, j: int, v: T)
    requires
        fits(data.len(), nrows, ncols, stride),
        0 <= i < nrows,
        0 <= j < ncols,
    ensures
        grid_of(data.update(j * stride + i, v), nrows, ncols, stride) == grid_of(
            data,
            nrows,
            ncols,
            stride,
        ).set(i, j, v),
        same_outside(data, data.update(j * stride + i, v), nrows, ncols, stride),
{
    let p = j * stride + i;
    let after = data.update(p, v);
    lemma_position(i, j, data.len(), nrows, ncols, stride);
    let g = grid_of(data, nrows, ncols, stride);
    let h = grid_of(after, nrows, ncols, stride);
    assert forall|k: int| 0 <= k < ncols implies h.cols[k] == g.set(i, j, v).cols[k] by {
        lemma_column_start(k, data.len(), nrows, ncols, stride);
        assert forall|r: int| 0 <= r < nrows implies h.cols[k][r] == g.set(i, j, v).cols[k][r] by {
            lemma_position(r, k, data.len(), nrows, ncols, stride);
        }
        assert(h.cols[k] =~= g.set(i, j, v).cols[k]);
    }
    assert(h.cols =~= g.set(i, j, v).cols);
}

/// Writing one whole column changes that column of the matrix, and nothing outside the matrix.
pub proof fn lemma_set_column<T>(
    data: Seq<T>,
    nrows: nat,
    ncols: nat,
    stride: nat,
    j: int,
    col: Seq<T>,
)
    requires
        fits(data.len(), nrows, ncols, stride),
        0 <= j < ncols,
        col.len() == nrows,
    ensures
        ({
            let start = j * stride;
            let after = data.subrange(0, start) + col + data.subrange(
                start + nrows,
                data.len() as int,
            );
            let g = grid_of(data, nrows, ncols, stride);
            &&& grid_of(after, nrows, ncols, stride) == (Grid { cols: g.cols.update(j, col), ..g })
            &&& same_outside(data, after, nrows, ncols, stride)
        }),
{
    let start = j * stride;
    lemma_column_start(j, data.len(), nrows, ncols, stride);
    let after = data.subrange(0, start) + col + data.subrange(start + nrows, data.len() as int);
    let g = grid_of(data, nrows, ncols, stride);
    let h = grid_of(after, nrows, ncols, stride);
    let expected = Grid { cols: g.cols.update(j, col), ..g };
    assert(after.len() == data.len());
    assert forall|k: int| 0 <= k < ncols implies h.cols[k] == expected.cols[k] by {
        lemma_column_start(k, data.len(), nrows, ncols, stride);
        assert forall|r: int| 0 <= r < nrows implies h.cols[k][r] == expected.cols[k][r] by {
            lemma_position(r, k, data.len(), nrows, ncols, stride);
            let p = k * stride + r;
            if start <= p < start + nrows {
                lemma_position(p - start, j, data.len(), nrows, ncols, stride);
            }
        }
        assert(h.cols[k] =~= expected.cols[k]);
    }
    assert(h.cols =~= expected.cols);
    assert forall|p: int|
        0 <= p < after.len() && !inside(p, nrows, ncols, stride) implies #[trigger] after[p]
        == data[p] by {
        if start <= p < start + nrows {
            lemma_position(p - start, j, data.len(), nrows, ncols, stride);
        }
    }
}

/// Where the entries of a block stand in the slice of the whole matrix, and the other way round.
proof fn lemma_block_position(i: int, j: int, r: int, c: int, stride: nat)
    ensures
        (c + j) * stride + (r + i) == (c * stride + r) + (j * stride + i),
{
    assert((c + j) * stride == c * stride + j * stride) by (nonlinear_arith);
}

/// A block of a matrix stands in the slice of the matrix, from its first entry to its last one.
pub proof fn lemma_block_fits(
    len: nat,
    nrows: nat,
    ncols: nat,
    stride: nat,
    r: int,
    c: int,
    nr: nat,
    nc: nat,
)
    requires
        fits(len, nrows, ncols, stride),
        0 <= r,
        0 <= c,
        0 < nc,
        r + nr <= nrows,
        c + nc <= ncols,
    ensures
        0 <= c * stride,
        0 <= (nc - 1) * stride,
        c * stride + r + ((nc - 1) * stride + nr) <= len,
{
    assert(0 <= c * stride && 0 <= (nc - 1) * stride && c * stride + (nc - 1) * stride <= (ncols
        - 1) * stride) by (nonlinear_arith)
        requires
            0 <= c,
            0 < nc,
            c + nc <= ncols,
            0 <= stride,
    ;
}

/// The part of a slice from the first entry of a block on holds that block, at the same distance
/// between columns.
pub proof fn lemma_block<T>(
    data: Seq<T>,
    nrows: nat,
    ncols: nat,
    stride: nat,
    r: int,
    c: int,
    nr: nat,
    nc: nat,
    len: nat,
)
    requires
        fits(data.len(), nrows, ncols, stride),
        0 <= r,
        0 <= c,
        r + nr <= nrows,
        c + nc <= ncols,
        fits(len, nr, nc, stride),
        0 <= c * stride,
        c * stride + r + len <= data.len(),
    ensures
        grid_of(
            data.subrange(c * stride + r, c * stride + r + len),
            nr,
            nc,
            stride,
        ) == grid_of(data, nrows, ncols, stride).block(r, c, nr, nc),
{
    let off = c * stride + r;
    let sub = data.subrange(off, off + len);
    let g = grid_of(data, nrows, ncols, stride);
    let b = grid_of(sub, nr, nc, stride);
    assert forall|j: int| 0 <= j < nc implies b.cols[j] == g.block(r, c, nr, nc).cols[j] by {
        lemma_column_start(j, len, nr, nc, stride);
        assert forall|i: int| 0 <= i < nr implies b.cols[j][i] == g.at(r + i, c + j) by {
            lemma_position(i, j, len, nr, nc, stride);
            lemma_block_position(i, j, r, c, stride);
            lemma_grid_at(data, nrows, ncols, stride, r + i, c + j);
        }
        assert(b.cols[j] =~= g.block(r, c, nr, nc).cols[j]);
    }
    assert(b.cols =~= g.block(r, c, nr, nc).cols);
}

/// A change of a block that keeps what stands in its gaps changes that block of the whole matrix,
/// and nothing outside the whole matrix.
pub proof fn lemma_with_block<T>(
    data: Seq<T>,
    nrows: nat,
    ncols: nat,
    stride: nat,
    r: int,
    c: int,
    nr: nat,
    nc: nat,
    sub: Seq<T>,
)
    requires
        fits(data.len(), nrows, ncols, stride),
        0 <= r,
        0 <= c,
        r + nr <= nrows,
        c + nc <= ncols,
        fits(sub.len(), nr, nc, stride),
        0 <= c * stride,
        c * stride + r + sub.len() <= data.len(),
        same_outside(
            data.subrange(c * stride + r, c * stride + r + sub.len()),
            sub,
            nr,
            nc,
            stride,
        ),
    ensures
        ({
            let off = c * stride + r;
            let after = data.subrange(0, off) + sub + data.subrange(
                off + sub.len(),
                data.len() as int,
            );
            &&& grid_of(after, nrows, ncols, stride) == grid_of(
                data,
                nrows,
                ncols,
                stride,
            ).with_block(r, c, grid_of(sub, nr, nc, stride))
            &&& same_outside(data, after, nrows, ncols, stride)
        }),
{
    let off = c * stride + r;
    let after = data.subrange(0, off) + sub + data.subrange(off + sub.len(), data.len() as int);
    let g = grid_of(data, nrows, ncols, stride);
    let h = grid_of(after, nrows, ncols, stride);
    let b = grid_of(sub, nr, nc, stride);
    let expected = g.with_block(r, c, b);
    assert(after.len() == data.len());
    assert forall|k: int| 0 <= k < ncols implies h.cols[k] == expected.cols[k] by {
        lemma_column_start(k, data.len(), nrows, ncols, stride);
        assert forall|i: int| 0 <= i < nrows implies #[trigger] h.cols[k][i]
            == expected.cols[k][i] by {
            lemma_position(i, k, data.len(), nrows, ncols, stride);
            lemma_grid_at(data, nrows, ncols, stride, i, k);
            lemma_grid_at(after, nrows, ncols, stride, i, k);
            let p = k * stride + i;
            lemma_block_position(i - r, k - c, r, c, stride);
            let q = (k - c) * stride + (i - r);
            assert(q == p - off);
            if r <= i < r + nr && c <= k < c + nc {
                lemma_position(i - r, k - c, sub.len(), nr, nc, stride);
                lemma_grid_at(sub, nr, nc, stride, i - r, k - c);
            } else if 0 <= q < sub.len() {
                if r <= i {
                    vstd::arithmetic::div_mod::lemma_fundamental_div_mod_converse(
                        q,
                        stride as int,
                        k - c,
                        i - r,
                    );
                    if k < c {
                        assert((k - c) * stride <= -stride) by (nonlinear_arith)
                            requires
                                k - c <= -1,
                                0 <= stride,
                        ;
                    }
                } else {
                    assert((k - c) * stride == (k - c - 1) * stride + stride) by (nonlinear_arith);
                    vstd::arithmetic::div_mod::lemma_fundamental_div_mod_converse(
                        q,
                        stride as int,
                        k - c - 1,
                        stride + i - r,
                    );
                }
                assert(!inside(q, nr, nc, stride));
                assert(sub[q] == data.subrange(off, off + sub.len())[q]);
            }
        }
        assert(h.cols[k] =~= expected.cols[k]);
    }
    assert(h.cols =~= expected.cols);
    assert forall|p: int|
        0 <= p < after.len() && !inside(p, nrows, ncols, stride) implies #[trigger] after[p]
        == data[p] by {
        let q = p - off;
        if 0 <= q < sub.len() {
            if inside(q, nr, nc, stride) {
                let j = q / (stride as int);
                let i = q % (stride as int);
                vstd::arithmetic::div_mod::lemma_fundamental_div_mod(q, stride as int);
                assert(j * stride == stride * j) by (nonlinear_arith);
                assert(0 <= j) by {
                    vstd::arithmetic::div_mod::lemma_div_pos_is_pos(q, stride as int);
                }
                lemma_block_position(i, j, r, c, stride);
                lemma_position(r + i, c + j, data.len(), nrows, ncols, stride);
            }
            assert(sub[q] == data.subrange(off, off + sub.len())[q]);
        }
    }
}

/// One more column at the end of a matrix without gaps.
pub proof fn lemma_push_column<T>(data: Seq<T>, nrows: nat, ncols: nat, col: Seq<T>)
    requires
        data.len() == ncols * nrows,
        col.len() == nrows,
    ensures
        (data + col).len() == (ncols + 1) * nrows,
        fits((data + col).len(), nrows, ncols + 1, nrows),
        grid_of(data + col, nrows, ncols + 1, nrows).cols == grid_of(
            data,
            nrows,
            ncols,
            nrows,
        ).cols.push(col),
{
    assert((ncols + 1) * nrows == ncols * nrows + nrows) by (nonlinear_arith);
    let g = grid_of(data, nrows, ncols, nrows);
    let h = grid_of(data + col, nrows, ncols + 1, nrows);
    assert forall|k: int| 0 <= k < ncols + 1 implies h.cols[k] == g.cols.push(col)[k] by {
        assert(0 <= k * nrows) by (nonlinear_arith)
            requires
                0 <= k,
                0 <= nrows,
        ;
        if k < ncols {
            assert(k * nrows + nrows <= ncols * nrows) by (nonlinear_arith)
                requires
                    0 <= k < ncols,
                    0 <= nrows,
            ;
        }
        assert(h.cols[k] =~= g.cols.push(col)[k]);
    }
    assert(h.cols =~= g.cols.push(col));
}

/// Whole columns with their gaps.
pub proof fn lemma_columns_fit(nrows: nat, stride: nat, c: int, nc: nat)
    requires
        nrows <= stride,
        0 <= c,
    ensures
        0 <= c * stride,
        0 <= nc * stride,
        (c + nc) * stride == c * stride + nc * stride,
        fits((nc * stride) as nat, nrows, nc, stride),
{
    assert(0 <= c * stride && 0 <= nc * stride && (c + nc) * stride == c * stride + nc * stride)
        by (nonlinear_arith)
        requires
            0 <= c,
            0 <= nc,
            0 <= stride,
    ;
    if nc > 0 {
        assert((nc - 1) * stride + stride == nc * stride) by (nonlinear_arith);
    }
}

/// A matrix without gaps fits exactly.
pub proof fn lemma_compact_fits(nrows: nat, ncols: nat)
    ensures
        fits(ncols * nrows, nrows, ncols, nrows),
        ncols * nrows == nrows * ncols,
{
    assert(ncols * nrows == nrows * ncols) by (nonlinear_arith);
    if ncols > 0 {
        assert((ncols - 1) * nrows + nrows == ncols * nrows) by (nonlinear_arith)
            requires
                ncols > 0,
        ;
    }
}

} // verus!
