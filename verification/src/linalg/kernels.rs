//! What the kernels compute, entry by entry, and the loops over plain slices that compute it.
//!
//! Scalar addition is not taken to be associative, so a sum is determined only by the order in
//! which its terms are added. The functions of this module fix that order.
use vstd::prelude::*;

use crate::scalar::Real;

verus! {

/// Whether a scalar is numerically zero.
pub open spec fn spec_is_zero<T: Real>(x: T) -> bool {
    x.equals(T::zero())
}

/// Tells whether a scalar is numerically zero.
#[verifier::when_used_as_spec(spec_is_zero)]
pub fn is_zero<T: Real>(x: T) -> (r: bool)
    ensures
        r == spec_is_zero(x),
{
    x.equals(T::zero())
}

/// What lane `l` of eight holds after `blocks` blocks of eight products: the products at `l`,
/// `l + 8`, `l + 16`, and so on, added in that order.
pub open spec fn lane<T: Real>(x: Seq<T>, y: Seq<T>, l: int, blocks: nat) -> T
    decreases blocks,
{
    if blocks == 0 {
        T::zero()
    } else {
        lane(x, y, l, (blocks - 1) as nat).add(
            x[8 * (blocks - 1) + l].mul(y[8 * (blocks - 1) + l]),
        )
    }
}

/// The eight lanes after `blocks` blocks, added pairwise, the pairs added one after another.
pub open spec fn lanes<T: Real>(x: Seq<T>, y: Seq<T>, blocks: nat) -> T {
    T::zero().add(lane(x, y, 0, blocks).add(lane(x, y, 4, blocks))).add(
        lane(x, y, 1, blocks).add(lane(x, y, 5, blocks)),
    ).add(lane(x, y, 2, blocks).add(lane(x, y, 6, blocks))).add(
        lane(x, y, 3, blocks).add(lane(x, y, 7, blocks)),
    )
}

/// `start`, and the products from position `from` to before `to` added to it one by one.
pub open spec fn tail<T: Real>(x: Seq<T>, y: Seq<T>, start: T, from: nat, to: nat) -> T
    decreases to,
{
    if to <= from {
        start
    } else {
        tail(x, y, start, from, (to - 1) as nat).add(x[to - 1].mul(y[to - 1]))
    }
}

/// The dot product: full blocks of eight in eight lanes, the rest one by one.
pub open spec fn dot<T: Real>(x: Seq<T>, y: Seq<T>) -> T {
    let blocks = x.len() / 8;
    tail(x, y, lanes(x, y, blocks), 8 * blocks, x.len())
}

/// The first `k` squares of `x`, added one by one.
pub open spec fn squares<T: Real>(x: Seq<T>, k: nat) -> T
    decreases k,
{
    if k == 0 {
        T::zero()
    } else {
        squares(x, (k - 1) as nat).add(x[k - 1].mul(x[k - 1]))
    }
}

/// The largest magnitude among the first `k` entries of `x`, zero where there is none above it.
pub open spec fn largest<T: Real>(x: Seq<T>, k: nat) -> T
    decreases k,
{
    if k == 0 {
        T::zero()
    } else {
        let before = largest(x, (k - 1) as nat);
        if before.lt(x[k - 1].abs()) {
            x[k - 1].abs()
        } else {
            before
        }
    }
}

/// `a * x + b * y`, where a zero `b` means that `y` is not read.
pub open spec fn spec_scaled_sum<T: Real>(a: T, x: T, b: T, y: T) -> T {
    if is_zero(b) {
        a.mul(x)
    } else {
        a.mul(x).add(b.mul(y))
    }
}

/// `a * x + b * y`, where a zero `b` means that `y` does not enter the result.
#[verifier::when_used_as_spec(spec_scaled_sum)]
pub fn scaled_sum<T: Real>(a: T, x: T, b: T, y: T) -> (r: T)
    ensures
        r == spec_scaled_sum(a, x, b, y),
{
    if is_zero(b) {
        a.mul(x)
    } else {
        a.mul(x).add(b.mul(y))
    }
}

/// `a * x * c + b * y`, where a zero `b` means that `y` is not read.
pub open spec fn spec_scaled_product_sum<T: Real>(a: T, x: T, c: T, b: T, y: T) -> T {
    if is_zero(b) {
        a.mul(x).mul(c)
    } else {
        a.mul(x).mul(c).add(b.mul(y))
    }
}

/// `a * x * c + b * y`, where a zero `b` means that `y` does not enter the result.
#[verifier::when_used_as_spec(spec_scaled_product_sum)]
pub fn scaled_product_sum<T: Real>(a: T, x: T, c: T, b: T, y: T) -> (r: T)
    ensures
        r == spec_scaled_product_sum(a, x, c, b, y),
{
    if is_zero(b) {
        a.mul(x).mul(c)
    } else {
        a.mul(x).mul(c).add(b.mul(y))
    }
}

/// `y * beta`, where a zero `beta` gives zero without a look at `y`.
pub open spec fn spec_rescaled<T: Real>(beta: T, y: T) -> T {
    if is_zero(beta) {
        T::zero()
    } else {
        y.mul(beta)
    }
}

/// `y * beta`, where a zero `beta` gives zero whatever `y` is.
#[verifier::when_used_as_spec(spec_rescaled)]
pub fn rescaled<T: Real>(beta: T, y: T) -> (r: T)
    ensures
        r == spec_rescaled(beta, y),
{
    if is_zero(beta) {
        T::zero()
    } else {
        y.mul(beta)
    }
}

/// The vector `a * x + b * y`.
pub open spec fn axpy<T: Real>(a: T, x: Seq<T>, b: T, y: Seq<T>) -> Seq<T> {
    Seq::new(y.len(), |i: int| scaled_sum(a, x[i], b, y[i]))
}

/// Row `i` of the matrix with the columns `a`.
pub open spec fn row<T>(a: Seq<Seq<T>>, i: int) -> Seq<T> {
    Seq::new(a.len(), |j: int| a[j][i])
}

/// What the first `k` terms of `alpha * row * x` make of the entry `y`: the first term is added to
/// `beta * y`, each further one to what is there.
pub open spec fn row_sum<T: Real>(alpha: T, row: Seq<T>, x: Seq<T>, beta: T, y: T, k: nat) -> T
    decreases k,
{
    if k == 0 {
        y
    } else {
        scaled_product_sum(
            alpha,
            row[k - 1],
            x[k - 1],
            if k == 1 {
                beta
            } else {
                T::one()
            },
            row_sum(alpha, row, x, beta, y, (k - 1) as nat),
        )
    }
}

/// One entry of `alpha * a * x + beta * y`, from a row of `a` and the old entry `y`.
pub open spec fn gemv_entry<T: Real>(alpha: T, row: Seq<T>, x: Seq<T>, beta: T, y: T) -> T {
    if row.len() == 0 {
        rescaled(beta, y)
    } else {
        row_sum(alpha, row, x, beta, y, row.len())
    }
}

/// The vector `alpha * a * x + beta * y`, where `a` is given by its columns.
pub open spec fn gemv<T: Real>(alpha: T, a: Seq<Seq<T>>, x: Seq<T>, beta: T, y: Seq<T>) -> Seq<T> {
    Seq::new(y.len(), |i: int| gemv_entry(alpha, row(a, i), x, beta, y[i]))
}

/// The vector `alpha * transpose(a) * x + beta * y`, where `a` is given by its columns.
pub open spec fn gemv_tr<T: Real>(
    alpha: T,
    a: Seq<Seq<T>>,
    x: Seq<T>,
    beta: T,
    y: Seq<T>,
) -> Seq<T> {
    Seq::new(y.len(), |j: int| scaled_sum(alpha, dot(a[j], x), beta, y[j]))
}

/// The dot product of two slices of one length.
pub fn dot_slices<T: Real>(x: &[T], y: &[T]) -> (r: T)
    requires
        x@.len() == y@.len(),
    ensures
        r == dot(x@, y@),
{
    let n: usize = x.len();
    let mut i: usize = 0;
    let mut acc0 = T::zero();
    let mut acc1 = T::zero();
    let mut acc2 = T::zero();
    let mut acc3 = T::zero();
    let mut acc4 = T::zero();
    let mut acc5 = T::zero();
    let mut acc6 = T::zero();
    let mut acc7 = T::zero();
    let ghost mut blocks: nat = 0;
    while n - i >= 8
        invariant
            n == x@.len(),
            n == y@.len(),
            i == 8 * blocks,
            i <= n,
            acc0 == lane(x@, y@, 0, blocks),
            acc1 == lane(x@, y@, 1, blocks),
            acc2 == lane(x@, y@, 2, blocks),
            acc3 == lane(x@, y@, 3, blocks),
            acc4 == lane(x@, y@, 4, blocks),
            acc5 == lane(x@, y@, 5, blocks),
            acc6 == lane(x@, y@, 6, blocks),
            acc7 == lane(x@, y@, 7, blocks),
        decreases n - i,
    {
        acc0 = acc0.add(x[i].mul(y[i]));
        acc1 = acc1.add(x[i + 1].mul(y[i + 1]));
        acc2 = acc2.add(x[i + 2].mul(y[i + 2]));
        acc3 = acc3.add(x[i + 3].mul(y[i + 3]));
        acc4 = acc4.add(x[i + 4].mul(y[i + 4]));
        acc5 = acc5.add(x[i + 5].mul(y[i + 5]));
        acc6 = acc6.add(x[i + 6].mul(y[i + 6]));
        acc7 = acc7.add(x[i + 7].mul(y[i + 7]));
        i = i + 8;
        proof {
            blocks = blocks + 1;
        }
    }
    assert(blocks == n / 8);
    let mut res = T::zero();
    res = res.add(acc0.add(acc4));
    res = res.add(acc1.add(acc5));
    res = res.add(acc2.add(acc6));
    res = res.add(acc3.add(acc7));
    let mut k: usize = i;
    while k < n
        invariant
            n == x@.len(),
            n == y@.len(),
            i == 8 * blocks,
            i <= k <= n,
            res == tail(x@, y@, lanes(x@, y@, blocks), i as nat, k as nat),
        decreases n - k,
    {
        res = res.add(x[k].mul(y[k]));
        k = k + 1;
    }
    res
}

/// The squares of a slice, added one by one.
pub fn sum_of_squares<T: Real>(x: &[T]) -> (r: T)
    ensures
        r == squares(x@, x@.len()),
{
    let mut s = T::zero();
    for i in 0..x.len()
        invariant
            s == squares(x@, i as nat),
    {
        s = s.add(x[i].mul(x[i]));
    }
    s
}

/// Sets `y` to `a * x + b * y`.
pub fn axpy_slices<T: Real>(y: &mut [T], a: T, x: &[T], b: T)
    requires
        old(y)@.len() == x@.len(),
    ensures
        final(y)@ == axpy(a, x@, b, old(y)@),
{
    let ghost before = y@;
    for i in 0..x.len()
        invariant
            y@.len() == x@.len(),
            before.len() == x@.len(),
            forall|k: int| 0 <= k < i ==> #[trigger] y@[k] == scaled_sum(a, x@[k], b, before[k]),
            forall|k: int| i <= k < x@.len() ==> #[trigger] y@[k] == before[k],
    {
        let e = scaled_sum(a, x[i], b, y[i]);
        y[i] = e;
    }
    assert(y@ =~= axpy(a, x@, b, before));
}

/// Sets `y` to `alpha * x * c + b * y`.
pub fn axcpy_slices<T: Real>(y: &mut [T], alpha: T, x: &[T], c: T, b: T)
    requires
        old(y)@.len() == x@.len(),
    ensures
        final(y)@ == Seq::new(
            x@.len(),
            |i: int| scaled_product_sum(alpha, x@[i], c, b, old(y)@[i]),
        ),
{
    let ghost before = y@;
    for i in 0..x.len()
        invariant
            y@.len() == x@.len(),
            before.len() == x@.len(),
            forall|k: int|
                0 <= k < i ==> #[trigger] y@[k] == scaled_product_sum(
                    alpha,
                    x@[k],
                    c,
                    b,
                    before[k],
                ),
            forall|k: int| i <= k < x@.len() ==> #[trigger] y@[k] == before[k],
    {
        let e = scaled_product_sum(alpha, x[i], c, b, y[i]);
        y[i] = e;
    }
}

/// Multiplies every entry of `y` by the entry of `x` at the same place.
pub fn mul_slices<T: Real>(y: &mut [T], x: &[T])
    requires
        old(y)@.len() == x@.len(),
    ensures
        final(y)@ == Seq::new(old(y)@.len(), |i: int| old(y)@[i].mul(x@[i])),
{
    let ghost before = y@;
    for i in 0..x.len()
        invariant
            y@.len() == x@.len(),
            before.len() == x@.len(),
            forall|k: int| 0 <= k < i ==> #[trigger] y@[k] == before[k].mul(x@[k]),
            forall|k: int| i <= k < x@.len() ==> #[trigger] y@[k] == before[k],
    {
        let e = y[i].mul(x[i]);
        y[i] = e;
    }
}

/// Sets every entry of `y` to `value`.
pub fn fill_slice<T: Real>(y: &mut [T], value: T)
    ensures
        final(y)@ == Seq::new(old(y)@.len(), |i: int| value),
{
    let n: usize = y.len();
    for i in 0..n
        invariant
            y@.len() == n,
            n == old(y)@.len(),
            forall|k: int| 0 <= k < i ==> #[trigger] y@[k] == value,
    {
        y[i] = value;
    }
}

/// Copies `src` into `y`, which has the same length.
pub fn copy_slice<T: Real>(y: &mut [T], src: &[T])
    requires
        old(y)@.len() == src@.len(),
    ensures
        final(y)@ == src@,
{
    for i in 0..src.len()
        invariant
            y@.len() == src@.len(),
            forall|k: int| 0 <= k < i ==> #[trigger] y@[k] == src@[k],
    {
        y[i] = src[i];
    }
    assert(y@ =~= src@);
}

} // verus!
