//! What the products of vectors and matrices are, where arithmetic does not round: sums of
//! products, whatever the order in which they are added.
use vstd::prelude::*;
use crate::linalg::kernels;
use crate::linalg::layout::Grid;
use crate::linalg::products;
use crate::reals;
use crate::reals::unrounded;
use crate::scalar::Real;

verus! {

/// The sum of the first `k` products of the entries of two vectors.
pub open spec fn sum_of_products<T: Real>(
    v: spec_fn(T) -> real,
    x: Seq<T>,
    y: Seq<T>,
    k: nat,
) -> real
    decreases k,
{
    if k == 0 {
        0real
    } else {
        sum_of_products(v, x, y, (k - 1) as nat) + v(x[k - 1]) * v(y[k - 1])
    }
}

/// The eight lanes together hold the sum of the products of all blocks.
proof fn lemma_lanes<T: Real>(v: spec_fn(T) -> real, x: Seq<T>, y: Seq<T>, blocks: nat)
    requires
        unrounded(v),
    ensures
        v(kernels::lane(x, y, 0, blocks)) + v(kernels::lane(x, y, 1, blocks)) + v(
            kernels::lane(x, y, 2, blocks),
        ) + v(kernels::lane(x, y, 3, blocks)) + v(kernels::lane(x, y, 4, blocks)) + v(
            kernels::lane(x, y, 5, blocks),
        ) + v(kernels::lane(x, y, 6, blocks)) + v(kernels::lane(x, y, 7, blocks))
            == sum_of_products(v, x, y, 8 * blocks),
    decreases blocks,
{
    if blocks > 0 {
        let before = (blocks - 1) as nat;
        lemma_lanes(v, x, y, before);
        let from = 8 * before;
        assert(8 * blocks == from + 8);
        let at = from as int;
        assert(sum_of_products(v, x, y, from + 8) == sum_of_products(v, x, y, from) + v(x[at]) * v(
            y[at],
        ) + v(x[at + 1]) * v(y[at + 1]) + v(x[at + 2]) * v(y[at + 2]) + v(x[at + 3]) * v(y[at + 3])
            + v(x[at + 4]) * v(y[at + 4]) + v(x[at + 5]) * v(y[at + 5]) + v(x[at + 6]) * v(
            y[at + 6],
        ) + v(x[at + 7]) * v(y[at + 7])) by {
            reveal_with_fuel(sum_of_products, 9);
        }
    }
}

proof fn lemma_tail<T: Real>(
    v: spec_fn(T) -> real,
    x: Seq<T>,
    y: Seq<T>,
    start: T,
    from: nat,
    to: nat,
)
    requires
        unrounded(v),
        from <= to,
    ensures
        v(kernels::tail(x, y, start, from, to)) == v(start) + sum_of_products(v, x, y, to)
            - sum_of_products(v, x, y, from),
    decreases to,
{
    if to > from {
        lemma_tail(v, x, y, start, from, (to - 1) as nat);
    }
}

/// The dot product is the sum of the products of the entries.
pub proof fn lemma_dot_is_sum_of_products<T: Real>(v: spec_fn(T) -> real, x: Seq<T>, y: Seq<T>)
    requires
        unrounded(v),
    ensures
        v(kernels::dot(x, y)) == sum_of_products(v, x, y, x.len()),
{
    let blocks = x.len() / 8;
    lemma_lanes(v, x, y, blocks);
    lemma_tail(v, x, y, kernels::lanes(x, y, blocks), 8 * blocks, x.len());
}

/// The sum of squares is the sum of the products of a vector with itself.
pub proof fn lemma_squares_are_products<T: Real>(v: spec_fn(T) -> real, x: Seq<T>, k: nat)
    requires
        unrounded(v),
    ensures
        v(kernels::squares(x, k)) == sum_of_products(v, x, x, k),
    decreases k,
{
    if k > 0 {
        lemma_squares_are_products(v, x, (k - 1) as nat);
    }
}

/// The size of a number.
pub open spec fn size(x: real) -> real {
    if x < 0real {
        -x
    } else {
        x
    }
}

/// The largest magnitude is that of one of the entries, and no entry has a greater one; without
/// entries it is zero.
pub proof fn lemma_largest_is_largest<T: Real>(v: spec_fn(T) -> real, x: Seq<T>, k: nat)
    requires
        unrounded(v),
        k <= x.len(),
    ensures
        forall|i: int| 0 <= i < k ==> size(v(#[trigger] x[i])) <= v(kernels::largest(x, k)),
        k == 0 ==> v(kernels::largest(x, k)) == 0real,
        k > 0 ==> exists|i: int|
            0 <= i < k && size(v(#[trigger] x[i])) == v(kernels::largest(x, k)),
        v(kernels::largest(x, k)) >= 0real,
    decreases k,
{
    if k > 0 {
        let before = (k - 1) as nat;
        lemma_largest_is_largest(v, x, before);
        assert(v(x[k - 1].abs()) == size(v(x[k - 1])));
        if v(kernels::largest(x, before)) < v(x[k - 1].abs()) {
            assert(size(v(x[k - 1])) == v(kernels::largest(x, k)));
        } else if before == 0 {
            assert(size(v(x[k - 1])) == v(kernels::largest(x, k)));
        } else {
            let i = choose|i: int|
                0 <= i < before && size(v(#[trigger] x[i])) == v(kernels::largest(x, before));
            assert(size(v(x[i])) == v(kernels::largest(x, k)));
        }
    }
}

/// A scaled sum: `a * x + b * y`.
pub proof fn lemma_scaled_sum<T: Real>(v: spec_fn(T) -> real, a: T, x: T, b: T, y: T)
    requires
        unrounded(v),
    ensures
        v(kernels::scaled_sum(a, x, b, y)) == v(a) * v(x) + v(b) * v(y),
{
    reals::lemma_trivial_factors(v(y));
}

/// `a * x + b * y`, entry by entry.
pub proof fn lemma_axpy_is_scaled_sum<T: Real>(
    v: spec_fn(T) -> real,
    a: T,
    x: Seq<T>,
    b: T,
    y: Seq<T>,
    i: int,
)
    requires
        unrounded(v),
        0 <= i < y.len(),
    ensures
        v(kernels::axpy(a, x, b, y)[i]) == v(a) * v(x[i]) + v(b) * v(y[i]),
{
    lemma_scaled_sum(v, a, x[i], b, y[i]);
}

proof fn lemma_row_sum<T: Real>(
    v: spec_fn(T) -> real,
    alpha: T,
    row: Seq<T>,
    x: Seq<T>,
    beta: T,
    y: T,
    k: nat,
)
    requires
        unrounded(v),
        k > 0,
    ensures
        v(kernels::row_sum(alpha, row, x, beta, y, k)) == v(alpha) * sum_of_products(v, row, x, k)
            + v(beta) * v(y),
    decreases k,
{
    let before = (k - 1) as nat;
    let (r, c) = (v(row[k - 1]), v(x[k - 1]));
    let s = sum_of_products(v, row, x, before);
    reals::lemma_sum_times(s, r * c, v(alpha));
    reals::lemma_factors(v(alpha), r, c);
    let there = kernels::row_sum(alpha, row, x, beta, y, before);
    reals::lemma_trivial_factors(v(y));
    reals::lemma_trivial_factors(v(there));
    reals::lemma_trivial_factors(v(alpha));
    if k > 1 {
        lemma_row_sum(v, alpha, row, x, beta, y, before);
    } else {
        assert(there == y);
    }
}

/// One entry of `alpha * a * x + beta * y`.
pub proof fn lemma_gemv_is_product<T: Real>(
    v: spec_fn(T) -> real,
    alpha: T,
    a: Seq<Seq<T>>,
    x: Seq<T>,
    beta: T,
    y: Seq<T>,
    i: int,
)
    requires
        unrounded(v),
        0 <= i < y.len(),
    ensures
        v(kernels::gemv(alpha, a, x, beta, y)[i]) == v(alpha) * sum_of_products(
            v,
            kernels::row(a, i),
            x,
            a.len(),
        ) + v(beta) * v(y[i]),
{
    let row = kernels::row(a, i);
    reals::lemma_trivial_factors(v(alpha));
    reals::lemma_trivial_factors(v(y[i]));
    reals::lemma_sum_times(v(y[i]), 0real, v(beta));
    if row.len() > 0 {
        lemma_row_sum(v, alpha, row, x, beta, y[i], row.len());
    }
}

/// One entry of `alpha * transpose(a) * x + beta * y`.
pub proof fn lemma_gemv_tr_is_product<T: Real>(
    v: spec_fn(T) -> real,
    alpha: T,
    a: Seq<Seq<T>>,
    x: Seq<T>,
    beta: T,
    y: Seq<T>,
    j: int,
)
    requires
        unrounded(v),
        0 <= j < y.len(),
    ensures
        v(kernels::gemv_tr(alpha, a, x, beta, y)[j]) == v(alpha) * sum_of_products(
            v,
            a[j],
            x,
            a[j].len(),
        ) + v(beta) * v(y[j]),
{
    lemma_dot_is_sum_of_products(v, a[j], x);
    lemma_scaled_sum(v, alpha, kernels::dot(a[j], x), beta, y[j]);
}

/// One entry of `alpha * a * b + beta * c`, column by column.
pub proof fn lemma_product_by_columns<T: Real>(
    v: spec_fn(T) -> real,
    alpha: T,
    a: Grid<T>,
    b: Grid<T>,
    beta: T,
    c: Grid<T>,
    i: int,
    j: int,
)
    requires
        unrounded(v),
        0 <= j < c.cols.len(),
        0 <= i < c.cols[j].len(),
    ensures
        v(products::product_by_columns(alpha, a, b, beta, c).cols[j][i]) == v(alpha)
            * sum_of_products(v, kernels::row(a.cols, i), b.cols[j], a.cols.len()) + v(beta) * v(
            c.cols[j][i],
        ),
{
    lemma_gemv_is_product(v, alpha, a.cols, b.cols[j], beta, c.cols[j], i);
}

/// One entry of `alpha * transpose(a) * b + beta * c`.
pub proof fn lemma_gemm_tr_is_product<T: Real>(
    v: spec_fn(T) -> real,
    alpha: T,
    a: Grid<T>,
    b: Grid<T>,
    beta: T,
    c: Grid<T>,
    i: int,
    j: int,
)
    requires
        unrounded(v),
        0 <= j < c.cols.len(),
        0 <= i < c.cols[j].len(),
    ensures
        v(products::gemm_tr(alpha, a, b, beta, c).cols[j][i]) == v(alpha) * sum_of_products(
            v,
            a.cols[i],
            b.cols[j],
            a.cols[i].len(),
        ) + v(beta) * v(c.cols[j][i]),
{
    lemma_gemv_tr_is_product(v, alpha, a.cols, b.cols[j], beta, c.cols[j], i);
}

/// One entry of `alpha * x * transpose(y) + beta * c`.
pub proof fn lemma_ger_is_product<T: Real>(
    v: spec_fn(T) -> real,
    alpha: T,
    x: Seq<T>,
    y: Seq<T>,
    beta: T,
    c: Grid<T>,
    i: int,
    j: int,
)
    requires
        unrounded(v),
        0 <= j < c.cols.len(),
        0 <= i < c.cols[j].len(),
    ensures
        v(products::ger(alpha, x, y, beta, c).cols[j][i]) == v(alpha) * (v(x[i]) * v(y[j])) + v(
            beta,
        ) * v(c.cols[j][i]),
{
    lemma_axpy_is_scaled_sum(v, alpha.mul(y[j]), x, beta, c.cols[j], i);
    reals::lemma_factors(v(alpha), v(y[j]), v(x[i]));
    reals::lemma_sum_times(v(x[i]), 0real, v(y[j]));
}

} // verus!
