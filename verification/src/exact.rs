//! Scalars whose operations are exact, and sums of them.
//!
//! Scalars round in general, and no kernel relies on more than the trait of scalars promises.
//! What a kernel computes up to rounding is stated for scalars that do not round at all.
use vstd::prelude::*;
use crate::scalar::Real;

verus! {

/// Whether the scalars are a field, with an order in which zero is the only one of least
/// magnitude.
#[verifier::opaque]
pub open spec fn exact<R: Real>() -> bool {
    &&& forall|a: R, b: R| #[trigger] a.add(b) == b.add(a)
    &&& forall|a: R, b: R, c: R| #[trigger] a.add(b).add(c) == a.add(b.add(c))
    &&& forall|a: R| #[trigger] a.add(R::zero()) == a
    &&& forall|a: R| a.add(#[trigger] a.neg()) == R::zero()
    &&& forall|a: R, b: R| #[trigger] a.sub(b) == a.add(b.neg())
    &&& forall|a: R, b: R| #[trigger] a.mul(b) == b.mul(a)
    &&& forall|a: R, b: R, c: R| #[trigger] a.mul(b).mul(c) == a.mul(b.mul(c))
    &&& forall|a: R| #[trigger] a.mul(R::one()) == a
    &&& forall|a: R, b: R, c: R| #[trigger] a.mul(b.add(c)) == a.mul(b).add(a.mul(c))
    &&& forall|a: R, b: R| b != R::zero() ==> (#[trigger] a.div(b)).mul(b) == a
    &&& forall|a: R| #[trigger] a.equals(R::zero()) <==> a == R::zero()
    &&& forall|a: R| !(#[trigger] a.abs()).lt(R::zero().abs())
    &&& forall|a: R| R::zero().abs().lt(#[trigger] a.abs()) <==> a != R::zero()
}

/// The order of two terms does not matter.
pub proof fn lemma_add_commutes<R: Real>(a: R, b: R)
    requires
        exact::<R>(),
    ensures
        a.add(b) == b.add(a),
{
    reveal(exact);
}

/// Neither does the order in which three terms are added.
pub proof fn lemma_add_associates<R: Real>(a: R, b: R, c: R)
    requires
        exact::<R>(),
    ensures
        a.add(b).add(c) == a.add(b.add(c)),
{
    reveal(exact);
}

/// Zero adds nothing.
pub proof fn lemma_add_zero<R: Real>(a: R)
    requires
        exact::<R>(),
    ensures
        a.add(R::zero()) == a,
        R::zero().add(a) == a,
{
    reveal(exact);
    lemma_add_commutes(a, R::zero());
}

/// A number and its negative add up to zero.
pub proof fn lemma_add_neg<R: Real>(a: R)
    requires
        exact::<R>(),
    ensures
        a.add(a.neg()) == R::zero(),
        a.neg().add(a) == R::zero(),
{
    reveal(exact);
    lemma_add_commutes(a, a.neg());
}

/// Taking away is adding the negative.
pub proof fn lemma_sub_is_add<R: Real>(a: R, b: R)
    requires
        exact::<R>(),
    ensures
        a.sub(b) == a.add(b.neg()),
{
    reveal(exact);
}

/// The order of two factors does not matter.
pub proof fn lemma_mul_commutes<R: Real>(a: R, b: R)
    requires
        exact::<R>(),
    ensures
        a.mul(b) == b.mul(a),
{
    reveal(exact);
}

/// Neither does the order in which three factors are multiplied.
pub proof fn lemma_mul_associates<R: Real>(a: R, b: R, c: R)
    requires
        exact::<R>(),
    ensures
        a.mul(b).mul(c) == a.mul(b.mul(c)),
{
    reveal(exact);
}

/// One changes no product.
pub proof fn lemma_mul_one<R: Real>(a: R)
    requires
        exact::<R>(),
    ensures
        a.mul(R::one()) == a,
        R::one().mul(a) == a,
{
    reveal(exact);
    lemma_mul_commutes(a, R::one());
}

/// A factor of a sum is one of its terms.
pub proof fn lemma_mul_distributes<R: Real>(a: R, b: R, c: R)
    requires
        exact::<R>(),
    ensures
        a.mul(b.add(c)) == a.mul(b).add(a.mul(c)),
        b.add(c).mul(a) == b.mul(a).add(c.mul(a)),
{
    reveal(exact);
    lemma_mul_commutes(a, b.add(c));
    lemma_mul_commutes(a, b);
    lemma_mul_commutes(a, c);
}

/// A quotient times its divisor is the dividend.
pub proof fn lemma_div_times<R: Real>(a: R, b: R)
    requires
        exact::<R>(),
        b != R::zero(),
    ensures
        a.div(b).mul(b) == a,
        b.mul(a.div(b)) == a,
{
    reveal(exact);
    lemma_mul_commutes(a.div(b), b);
}

/// Nothing but zero compares equal to it.
pub proof fn lemma_equals_zero<R: Real>(a: R)
    requires
        exact::<R>(),
    ensures
        a.equals(R::zero()) <==> a == R::zero(),
{
    reveal(exact);
}

/// Zero alone has the least magnitude.
pub proof fn lemma_least_magnitude<R: Real>(a: R)
    requires
        exact::<R>(),
    ensures
        !a.abs().lt(R::zero().abs()),
        R::zero().abs().lt(a.abs()) <==> a != R::zero(),
{
    reveal(exact);
}

/// What is added to a number cannot change it unless it is zero.
pub proof fn lemma_cancelled<R: Real>(a: R, b: R)
    requires
        exact::<R>(),
        a.add(b) == a,
    ensures
        b == R::zero(),
{
    lemma_add_associates(a.neg(), a, b);
    lemma_add_neg(a);
    lemma_add_zero(b);
}

/// A product with zero is zero.
pub proof fn lemma_mul_zero<R: Real>(a: R)
    requires
        exact::<R>(),
    ensures
        a.mul(R::zero()) == R::zero(),
        R::zero().mul(a) == R::zero(),
{
    lemma_add_zero(R::zero());
    lemma_mul_distributes(a, R::zero(), R::zero());
    lemma_cancelled(a.mul(R::zero()), a.mul(R::zero()));
    lemma_mul_commutes(a, R::zero());
}

/// A negative factor makes a negative product.
pub proof fn lemma_neg_times<R: Real>(a: R, b: R)
    requires
        exact::<R>(),
    ensures
        a.neg().mul(b) == a.mul(b).neg(),
{
    let p = a.mul(b);
    let q = a.neg().mul(b);
    lemma_mul_distributes(b, a, a.neg());
    lemma_add_neg(a);
    lemma_mul_zero(b);
    lemma_add_associates(p.neg(), p, q);
    lemma_add_neg(p);
    lemma_add_zero(q);
    lemma_add_zero(p.neg());
}

/// One is not zero, and divides nothing away.
pub proof fn lemma_div_one<R: Real>(a: R)
    requires
        exact::<R>(),
    ensures
        R::one() != R::zero(),
        a.div(R::one()) == a,
{
    R::law_zero_one();
    lemma_equals_zero(R::one());
    lemma_div_times(a, R::one());
    lemma_mul_one(a.div(R::one()));
}

/// `f(0) + f(1) + ... + f(n - 1)`.
pub open spec fn total<R: Real>(f: spec_fn(int) -> R, n: nat) -> R
    decreases n,
{
    if n == 0 {
        R::zero()
    } else {
        total(f, (n - 1) as nat).add(f(n - 1))
    }
}

/// Equal terms have equal sums.
pub proof fn lemma_total_same<R: Real>(f: spec_fn(int) -> R, g: spec_fn(int) -> R, n: nat)
    requires
        forall|k: int| 0 <= k < n ==> #[trigger] f(k) == g(k),
    ensures
        total(f, n) == total(g, n),
    decreases n,
{
    if n > 0 {
        lemma_total_same(f, g, (n - 1) as nat);
        assert(f(n - 1) == g(n - 1));
    }
}

/// A sum whose terms from `m` on are zero.
pub proof fn lemma_total_ends<R: Real>(f: spec_fn(int) -> R, m: nat, n: nat)
    requires
        exact::<R>(),
        m <= n,
        forall|k: int| m <= k < n ==> #[trigger] f(k) == R::zero(),
    ensures
        total(f, n) == total(f, m),
    decreases n,
{
    if m < n {
        lemma_total_ends(f, m, (n - 1) as nat);
        assert(f(n - 1) == R::zero());
        lemma_add_zero(total(f, (n - 1) as nat));
    }
}

/// A sum to one term of which something is added.
pub proof fn lemma_total_changed<R: Real>(
    f: spec_fn(int) -> R,
    g: spec_fn(int) -> R,
    i: int,
    d: R,
    n: nat,
)
    requires
        exact::<R>(),
        0 <= i < n,
        g(i) == f(i).add(d),
        forall|k: int| 0 <= k < n && k != i ==> #[trigger] g(k) == f(k),
    ensures
        total(g, n) == total(f, n).add(d),
    decreases n,
{
    let before = total(f, (n - 1) as nat);
    if i == n - 1 {
        lemma_total_same(g, f, (n - 1) as nat);
        lemma_add_associates(before, f(i), d);
    } else {
        lemma_total_changed(f, g, i, d, (n - 1) as nat);
        assert(g(n - 1) == f(n - 1));
        lemma_add_associates(before, d, f(n - 1));
        lemma_add_commutes(d, f(n - 1));
        lemma_add_associates(before, f(n - 1), d);
    }
}

/// A sum in which one term is no longer zero.
pub proof fn lemma_total_one_more<R: Real>(
    f: spec_fn(int) -> R,
    g: spec_fn(int) -> R,
    i: int,
    n: nat,
)
    requires
        exact::<R>(),
        0 <= i < n,
        f(i) == R::zero(),
        forall|k: int| 0 <= k < n && k != i ==> #[trigger] g(k) == f(k),
    ensures
        total(g, n) == total(f, n).add(g(i)),
{
    lemma_add_zero(g(i));
    lemma_total_changed(f, g, i, g(i), n);
}

/// What is taken away from one part and added to the other leaves the sum.
pub proof fn lemma_moved_over<R: Real>(x: R, t: R, p: R)
    requires
        exact::<R>(),
    ensures
        x.sub(p).add(t.add(p)) == x.add(t),
{
    lemma_sub_is_add(x, p);
    lemma_add_commutes(t, p);
    lemma_add_associates(x, p.neg(), p.add(t));
    lemma_add_associates(p.neg(), p, t);
    lemma_add_neg(p);
    lemma_add_zero(t);
}

/// A factor of every term is a factor of the sum.
pub proof fn lemma_total_scaled<R: Real>(
    a: R,
    f: spec_fn(int) -> R,
    g: spec_fn(int) -> R,
    n: nat,
)
    requires
        exact::<R>(),
        forall|k: int| 0 <= k < n ==> #[trigger] g(k) == a.mul(f(k)),
    ensures
        total(g, n) == a.mul(total(f, n)),
    decreases n,
{
    if n == 0 {
        lemma_mul_zero(a);
    } else {
        lemma_total_scaled(a, f, g, (n - 1) as nat);
        assert(g(n - 1) == a.mul(f(n - 1)));
        lemma_mul_distributes(a, total(f, (n - 1) as nat), f(n - 1));
    }
}

proof fn lemma_four_terms<R: Real>(a: R, b: R, c: R, d: R)
    requires
        exact::<R>(),
    ensures
        a.add(b).add(c.add(d)) == a.add(c).add(b.add(d)),
{
    lemma_add_associates(a, b, c.add(d));
    lemma_add_associates(b, c, d);
    lemma_add_commutes(b, c);
    lemma_add_associates(c, b, d);
    lemma_add_associates(a, c, b.add(d));
}

/// The sum of term-wise sums.
pub proof fn lemma_total_added<R: Real>(
    f: spec_fn(int) -> R,
    g: spec_fn(int) -> R,
    h: spec_fn(int) -> R,
    n: nat,
)
    requires
        exact::<R>(),
        forall|k: int| 0 <= k < n ==> #[trigger] h(k) == f(k).add(g(k)),
    ensures
        total(h, n) == total(f, n).add(total(g, n)),
    decreases n,
{
    if n == 0 {
        lemma_add_zero(R::zero());
    } else {
        lemma_total_added(f, g, h, (n - 1) as nat);
        assert(h(n - 1) == f(n - 1).add(g(n - 1)));
        lemma_four_terms(
            total(f, (n - 1) as nat),
            total(g, (n - 1) as nat),
            f(n - 1),
            g(n - 1),
        );
    }
}

/// A sum over rows of sums over columns is one over columns of sums over rows.
pub proof fn lemma_total_interchanged<R: Real>(f: spec_fn(int, int) -> R, m: nat, n: nat)
    requires
        exact::<R>(),
    ensures
        total(|i: int| total(|j: int| f(i, j), n), m) == total(
            |j: int| total(|i: int| f(i, j), m),
            n,
        ),
    decreases m,
{
    let rows = |i: int| total(|j: int| f(i, j), n);
    let cols = |j: int| total(|i: int| f(i, j), m);
    if m == 0 {
        lemma_total_ends(cols, 0, n);
    } else {
        lemma_total_interchanged(f, (m - 1) as nat, n);
        let before = |j: int| total(|i: int| f(i, j), (m - 1) as nat);
        let last = |j: int| f(m - 1, j);
        assert forall|j: int| 0 <= j < n implies #[trigger] cols(j) == before(j).add(last(j)) by {
            let column = |i: int| f(i, j);
            assert(total(column, m) == total(column, (m - 1) as nat).add(column(m - 1)));
        }
        lemma_total_added(before, last, cols, n);
        assert(rows(m - 1) == total(last, n));
    }
}

} // verus!
