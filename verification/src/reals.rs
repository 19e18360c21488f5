//! Scalars read as real numbers.
//!
//! What a kernel is for is stated where no operation rounds: every scalar stands for a real
//! number, every operation does to these numbers what its name says, and vectors are arrows in
//! space.
use vstd::prelude::*;
use crate::fixed;
use crate::math::{Rotation, Vector};
use crate::scalar::Real;

verus! {

/// `x` to the power of `n`.
pub open spec fn power(x: real, n: nat) -> real
    decreases n,
{
    if n == 0 {
        1real
    } else {
        power(x, (n - 1) as nat) * x
    }
}

/// Whether `v` gives every scalar a real number such that no operation rounds.
pub open spec fn unrounded<R: Real>(v: spec_fn(R) -> real) -> bool {
    &&& v(R::zero()) == 0real
    &&& v(R::one()) == 1real
    &&& 3real < v(R::pi()) < 4real
    &&& forall|a: R, b: R| #[trigger] v(a.add(b)) == v(a) + v(b)
    &&& forall|a: R, b: R| #[trigger] v(a.sub(b)) == v(a) - v(b)
    &&& forall|a: R, b: R| #[trigger] v(a.mul(b)) == v(a) * v(b)
    &&& forall|a: R, b: R| v(b) != 0real ==> #[trigger] v(a.div(b)) == v(a) / v(b)
    &&& forall|a: R| #[trigger] v(a.neg()) == -v(a)
    &&& forall|a: R| v(a) != 0real ==> #[trigger] v(a.inv()) == 1real / v(a)
    &&& forall|a: R, n: i32| n >= 0 ==> #[trigger] v(a.powi(n)) == power(v(a), n as nat)
    &&& forall|a: R|
        v(a) >= 0real ==> #[trigger] v(a.sqrt()) >= 0real && v(a.sqrt()) * v(a.sqrt()) == v(a)
    &&& forall|a: R| #[trigger] v(a.abs()) == (if v(a) < 0real { -v(a) } else { v(a) })
    &&& forall|a: R, b: R| #[trigger] v(a.min(b)) == (if v(a) <= v(b) { v(a) } else { v(b) })
    &&& forall|a: R, b: R| #[trigger] v(a.max(b)) == (if v(a) <= v(b) { v(b) } else { v(a) })
    &&& forall|a: R, b: R| #[trigger] a.lt(b) <==> v(a) < v(b)
    &&& forall|a: R, b: R| #[trigger] a.le(b) <==> v(a) <= v(b)
    &&& forall|a: R, b: R| #[trigger] a.equals(b) <==> v(a) == v(b)
    &&& forall|m: i64, d: u32|
        #[trigger] v(R::decimal(m, d)) == (m as int) as real / fixed::pow10(d as nat) as real
    &&& forall|n: usize| #[trigger] v(R::from_usize(n)) == (n as int) as real
}

/// An arrow in space.
#[verifier::ext_equal]
pub ghost struct Arrow {
    /// First coordinate.
    pub x: real,
    /// Second coordinate.
    pub y: real,
    /// Third coordinate.
    pub z: real,
}

impl Arrow {
    /// The arrow without length.
    pub open spec fn none() -> Arrow {
        Arrow { x: 0real, y: 0real, z: 0real }
    }

    /// One arrow behind the other.
    pub open spec fn plus(self, o: Arrow) -> Arrow {
        Arrow { x: self.x + o.x, y: self.y + o.y, z: self.z + o.z }
    }

    /// The arrow from the head of `o` to the head of this one.
    pub open spec fn minus(self, o: Arrow) -> Arrow {
        Arrow { x: self.x - o.x, y: self.y - o.y, z: self.z - o.z }
    }

    /// The arrow `s` times as long.
    pub open spec fn times(self, s: real) -> Arrow {
        Arrow { x: self.x * s, y: self.y * s, z: self.z * s }
    }

    /// The inner product.
    pub open spec fn inner(self, o: Arrow) -> real {
        self.x * o.x + self.y * o.y + self.z * o.z
    }

    /// The arrow across two others.
    pub open spec fn across(self, o: Arrow) -> Arrow {
        Arrow {
            x: self.y * o.z - self.z * o.y,
            y: self.z * o.x - self.x * o.z,
            z: self.x * o.y - self.y * o.x,
        }
    }

    /// The square of the length.
    pub open spec fn square(self) -> real {
        self.inner(self)
    }
}

/// A vector as an arrow.
pub open spec fn arrow<R: Real>(v: spec_fn(R) -> real, p: Vector<R>) -> Arrow {
    Arrow { x: v(p.x), y: v(p.y), z: v(p.z) }
}

/// A quotient times its divisor is the dividend.
pub proof fn lemma_quotient(a: real, b: real)
    requires
        b != 0real,
    ensures
        (a / b) * b == a,
        b * (a / b) == a,
{
    assert((a / b) * b == a) by (nonlinear_arith)
        requires
            b != 0real,
    ;
    assert(b * (a / b) == (a / b) * b) by (nonlinear_arith);
}

/// The quotient is the only number that, times the divisor, is the dividend.
pub proof fn lemma_quotient_is(a: real, b: real, q: real)
    requires
        b != 0real,
        q * b == a,
    ensures
        a / b == q,
{
    lemma_quotient(a, b);
    let p = a / b;
    assert(p == q) by (nonlinear_arith)
        requires
            b != 0real,
            p * b == q * b,
    ;
}

/// A factor other than zero can be taken away on both sides.
pub proof fn lemma_cancel(x: real, y: real, l: real)
    requires
        l != 0real,
        x * l == y * l,
    ensures
        x == y,
{
    assert(x == y) by (nonlinear_arith)
        requires
            l != 0real,
            x * l == y * l,
    ;
}

/// A product of numbers that are not negative is not negative, and one of positive numbers is
/// positive.
pub proof fn lemma_product_sign(x: real, y: real)
    requires
        x >= 0real,
        y >= 0real,
    ensures
        x * y >= 0real,
        x > 0real && y > 0real ==> x * y > 0real,
{
    assert(x * y >= 0real) by (nonlinear_arith)
        requires
            x >= 0real,
            y >= 0real,
    ;
    if x > 0real && y > 0real {
        assert(x * y > 0real) by (nonlinear_arith)
            requires
                x > 0real,
                y > 0real,
        ;
    }
}

/// Anything times zero is zero, and times one is itself.
pub proof fn lemma_trivial_factors(x: real)
    ensures
        x * 0real == 0real,
        0real * x == 0real,
        x * 1real == x,
        1real * x == x,
        x * (-1real) == -x,
{
}

/// Two numbers that are not negative are equal if their squares are.
pub proof fn lemma_same_square(a: real, b: real)
    requires
        a >= 0real,
        b >= 0real,
        a * a == b * b,
    ensures
        a == b,
{
    assert(a == b) by (nonlinear_arith)
        requires
            a >= 0real,
            b >= 0real,
            a * a == b * b,
    ;
}

/// No square is negative, and that of an arrow is zero only if it has no length.
pub proof fn lemma_square(a: Arrow)
    ensures
        a.square() >= 0real,
        a.square() == 0real <==> a == Arrow::none(),
{
    let (x, y, z) = (a.x, a.y, a.z);
    assert(x * x >= 0real && y * y >= 0real && z * z >= 0real) by (nonlinear_arith);
    if a.square() == 0real {
        assert(x == 0real) by (nonlinear_arith)
            requires
                x * x == 0real,
        ;
        assert(y == 0real) by (nonlinear_arith)
            requires
                y * y == 0real,
        ;
        assert(z == 0real) by (nonlinear_arith)
            requires
                z * z == 0real,
        ;
    }
}

/// The inner product of a sum.
pub proof fn lemma_inner_plus(a: Arrow, b: Arrow, c: Arrow)
    ensures
        a.plus(b).inner(c) == a.inner(c) + b.inner(c),
        c.inner(a.plus(b)) == c.inner(a) + c.inner(b),
        a.minus(b).inner(c) == a.inner(c) - b.inner(c),
        c.inner(a.minus(b)) == c.inner(a) - c.inner(b),
{
    lemma_sum_times(a.x, b.x, c.x);
    lemma_sum_times(a.y, b.y, c.y);
    lemma_sum_times(a.z, b.z, c.z);
}

/// A factor of a sum is one of its terms.
pub proof fn lemma_sum_times(a: real, b: real, c: real)
    ensures
        (a + b) * c == a * c + b * c,
        c * (a + b) == c * a + c * b,
        (a - b) * c == a * c - b * c,
        c * (a - b) == c * a - c * b,
        a * c == c * a,
        b * c == c * b,
{
    assert((a + b) * c == a * c + b * c) by (nonlinear_arith);
    assert(c * (a + b) == c * a + c * b) by (nonlinear_arith);
    assert((a - b) * c == a * c - b * c) by (nonlinear_arith);
    assert(c * (a - b) == c * a - c * b) by (nonlinear_arith);
    assert(a * c == c * a) by (nonlinear_arith);
    assert(b * c == c * b) by (nonlinear_arith);
}

/// Three factors in any order.
pub proof fn lemma_factors(a: real, b: real, c: real)
    ensures
        (a * b) * c == a * (b * c),
        (a * b) * c == (a * c) * b,
        (a * b) * c == b * (a * c),
{
    assert((a * b) * c == a * (b * c)) by (nonlinear_arith);
    assert((a * b) * c == (a * c) * b) by (nonlinear_arith);
    assert((a * b) * c == b * (a * c)) by (nonlinear_arith);
}

/// Four factors in pairs.
pub proof fn lemma_four_factors(a: real, b: real, c: real, d: real)
    ensures
        (a * b) * (c * d) == (a * c) * (b * d),
{
    lemma_factors(a, b, c * d);
    lemma_factors(b, c, d);
    lemma_factors(a, c, b * d);
}

/// A negative factor makes a negative product.
pub proof fn lemma_negative(a: real, b: real)
    ensures
        a * (-b) == -(a * b),
        (-a) * b == -(a * b),
{
    assert(a * (-b) == -(a * b)) by (nonlinear_arith);
    assert((-a) * b == -(a * b)) by (nonlinear_arith);
}

/// The inner product of a longer arrow.
pub proof fn lemma_inner_times(a: Arrow, s: real, c: Arrow)
    ensures
        a.times(s).inner(c) == a.inner(c) * s,
        c.inner(a.times(s)) == c.inner(a) * s,
        a.inner(c) == c.inner(a),
{
    lemma_factors(a.x, s, c.x);
    lemma_factors(a.y, s, c.y);
    lemma_factors(a.z, s, c.z);
    lemma_factors(c.x, a.x, s);
    lemma_factors(c.y, a.y, s);
    lemma_factors(c.z, a.z, s);
    lemma_sum_times(a.x, 0real, c.x);
    lemma_sum_times(a.y, 0real, c.y);
    lemma_sum_times(a.z, 0real, c.z);
    lemma_sum_times(a.x * c.x, a.y * c.y, s);
    lemma_sum_times(a.x * c.x + a.y * c.y, a.z * c.z, s);
}

/// What is across an arrow and itself has no length; exchanging two arrows turns what is across
/// them round; and it has no part along either.
pub proof fn lemma_across(a: Arrow, b: Arrow, c: Arrow)
    ensures
        a.across(a) == Arrow::none(),
        a.across(b) == Arrow::none().minus(b.across(a)),
        a.across(b).inner(a) == 0real,
        a.across(b).inner(b) == 0real,
        a.plus(b).across(c) == a.across(c).plus(b.across(c)),
        a.minus(b).across(c) == a.across(c).minus(b.across(c)),
{
    lemma_sum_times(a.x, b.x, c.y);
    lemma_sum_times(a.x, b.x, c.z);
    lemma_sum_times(a.y, b.y, c.x);
    lemma_sum_times(a.y, b.y, c.z);
    lemma_sum_times(a.z, b.z, c.x);
    lemma_sum_times(a.z, b.z, c.y);
    let (ax, ay, az, bx, by, bz) = (a.x, a.y, a.z, b.x, b.y, b.z);
    lemma_sum_times(ay, az, bx);
    lemma_sum_times(ax, az, by);
    lemma_sum_times(ax, ay, bz);
    lemma_no_volume(ax, ay, az, bx, by, bz);
    lemma_no_volume(bx, by, bz, ax, ay, az);
    let (x, y, z) = (ay * bz - az * by, az * bx - ax * bz, ax * by - ay * bx);
    lemma_negative(x, bx);
    lemma_negative(y, by);
    lemma_negative(z, bz);
}

/// Three edges in a plane have no volume.
proof fn lemma_no_volume(ax: real, ay: real, az: real, bx: real, by: real, bz: real)
    ensures
        (ay * bz - az * by) * ax + (az * bx - ax * bz) * ay + (ax * by - ay * bx) * az == 0real,
{
    lemma_sum_times(ay * bz, az * by, ax);
    lemma_sum_times(az * bx, ax * bz, ay);
    lemma_sum_times(ax * by, ay * bx, az);
    lemma_swapped(ay, bz, ax);
    lemma_swapped(az, by, ax);
    lemma_swapped(az, bx, ay);
}

proof fn lemma_swapped(a: real, b: real, c: real)
    ensures
        (a * b) * c == (c * b) * a,
{
    lemma_factors(a, b, c);
    lemma_factors(c, b, a);
    lemma_sum_times(a, a, c);
}

/// Vectors do what arrows do.
pub proof fn lemma_vectors<R: Real>(v: spec_fn(R) -> real, p: Vector<R>, q: Vector<R>, s: R)
    requires
        unrounded(v),
    ensures
        arrow(v, Vector::<R>::spec_zero()) == Arrow::none(),
        arrow(v, p.add(q)) == arrow(v, p).plus(arrow(v, q)),
        arrow(v, p.sub(q)) == arrow(v, p).minus(arrow(v, q)),
        arrow(v, p.neg()) == arrow(v, p).times(-1real),
        arrow(v, p.scale(s)) == arrow(v, p).times(v(s)),
        v(s) != 0real ==> arrow(v, p.div(s)).times(v(s)) == arrow(v, p),
        v(p.dot(q)) == arrow(v, p).inner(arrow(v, q)),
        v(p.length_squared()) == arrow(v, p).square(),
        arrow(v, p.cross(q)) == arrow(v, p).across(arrow(v, q)),
        v(p.length()) >= 0real,
        v(p.length()) * v(p.length()) == arrow(v, p).square(),
{
    lemma_square(arrow(v, p));
    if v(s) != 0real {
        lemma_quotient(v(p.x), v(s));
        lemma_quotient(v(p.y), v(s));
        lemma_quotient(v(p.z), v(s));
    }
    let (a, b) = (arrow(v, p), arrow(v, q));
    assert(b.y * a.z == a.z * b.y) by (nonlinear_arith);
    assert(b.z * a.x == a.x * b.z) by (nonlinear_arith);
    assert(b.x * a.y == a.y * b.x) by (nonlinear_arith);
    assert(v(p.dot(p)) == a.square());
}

/// A rotation by its four coefficients.
#[verifier::ext_equal]
pub ghost struct Turn {
    /// Along the axis.
    pub axis: Arrow,
    /// The real coefficient.
    pub w: real,
}

impl Turn {
    /// Sum by coefficients.
    pub open spec fn plus(self, o: Turn) -> Turn {
        Turn { axis: self.axis.plus(o.axis), w: self.w + o.w }
    }

    /// Every coefficient times `s`.
    pub open spec fn times(self, s: real) -> Turn {
        Turn { axis: self.axis.times(s), w: self.w * s }
    }

    /// The inner product of the coefficients: one where two unit rotations are the same, less the
    /// further they are apart.
    pub open spec fn inner(self, o: Turn) -> real {
        self.axis.inner(o.axis) + self.w * o.w
    }
}

/// A rotation by its coefficients.
pub open spec fn turn<R: Real>(v: spec_fn(R) -> real, q: Rotation<R>) -> Turn {
    Turn { axis: arrow(v, q.v), w: v(q.w) }
}

/// The inner product of a sum, and of multiples.
pub proof fn lemma_turn_inner(a: Turn, b: Turn, c: Turn, s: real)
    ensures
        a.plus(b).inner(c) == a.inner(c) + b.inner(c),
        a.times(s).inner(c) == a.inner(c) * s,
        a.inner(b) == b.inner(a),
        a.inner(a) >= 0real,
{
    lemma_inner_plus(a.axis, b.axis, c.axis);
    lemma_sum_times(a.w, b.w, c.w);
    lemma_inner_times(a.axis, s, c.axis);
    lemma_inner_times(a.axis, s, b.axis);
    lemma_factors(a.w, s, c.w);
    lemma_sum_times(a.axis.inner(c.axis), a.w * c.w, s);
    assert(a.w * b.w == b.w * a.w) by (nonlinear_arith);
    lemma_square(a.axis);
    assert(a.w * a.w >= 0real) by (nonlinear_arith);
}

/// Two unit rotations have an inner product of at most one.
pub proof fn lemma_unit_turns(a: Turn, b: Turn)
    requires
        a.inner(a) == 1real,
        b.inner(b) == 1real,
    ensures
        -1real <= a.inner(b) <= 1real,
{
    let d = a.plus(b.times(-1real));
    let e = a.plus(b);
    lemma_turn_inner(a, b.times(-1real), d, 0real);
    lemma_turn_inner(b, a, d, -1real);
    lemma_turn_inner(a, b.times(-1real), a, 0real);
    lemma_turn_inner(a, b.times(-1real), b, 0real);
    lemma_turn_inner(b, a, a, -1real);
    lemma_turn_inner(b, a, b, -1real);
    lemma_turn_inner(a, d, a, 0real);
    lemma_turn_inner(b, d, a, 0real);
    lemma_turn_inner(d, a, a, 0real);
    lemma_turn_inner(a, b, e, 0real);
    lemma_turn_inner(a, b, a, 0real);
    lemma_turn_inner(a, b, b, 0real);
    lemma_turn_inner(e, a, a, 0real);
    lemma_turn_inner(e, b, b, 0real);
}

impl Turn {
    /// The image of an arrow.
    pub open spec fn image(self, p: Arrow) -> Arrow {
        p.times(self.w * self.w - self.axis.square()).plus(
            self.axis.times(p.inner(self.axis) * 2real),
        ).plus(self.axis.across(p).times(self.w * 2real))
    }
}

/// The number two.
pub proof fn lemma_two<R: Real>(v: spec_fn(R) -> real)
    requires
        unrounded(v),
    ensures
        v(R::decimal(2, 0)) == 2real,
{
    assert(fixed::pow10(0) == 1);
    lemma_quotient_is(2real, 1real, 2real);
}

/// Rotating a vector gives the image of its arrow.
pub proof fn lemma_image<R: Real>(v: spec_fn(R) -> real, q: Rotation<R>, p: Vector<R>)
    requires
        unrounded(v),
    ensures
        arrow(v, q.rotate(p)) == turn(v, q).image(arrow(v, p)),
{
    let two = R::decimal(2, 0);
    lemma_two(v);
    let k = p.dot(q.v).mul(two);
    let m = q.w.mul(q.w).sub(q.v.dot(q.v));
    lemma_vectors(v, p, q.v, m);
    lemma_vectors(v, q.v, q.v, k);
    lemma_vectors(v, q.v, p, k);
    lemma_vectors(v, q.v.cross(p), p, q.w.mul(two));
    lemma_vectors(v, p.scale(m), q.v.scale(k), m);
    lemma_vectors(v, p.scale(m).add(q.v.scale(k)), q.v.cross(p).scale(q.w.mul(two)), m);
}

/// One coordinate of an image under a rotation and its opposite.
proof fn lemma_opposite_coordinate(u: real, k: real, w: real, c: real)
    ensures
        (u * (-1real)) * ((k * (-1real)) * 2real) == u * (k * 2real),
        (c * (-1real)) * ((w * (-1real)) * 2real) == c * (w * 2real),
{
    lemma_trivial_factors(u);
    lemma_trivial_factors(k);
    lemma_trivial_factors(c);
    lemma_trivial_factors(w);
    lemma_negative(u, k * 2real);
    lemma_negative(-u, k * 2real);
    lemma_negative(c, w * 2real);
    lemma_negative(-c, w * 2real);
}

/// A rotation and its opposite have the same images.
pub proof fn lemma_opposite_image(q: Turn, p: Arrow)
    ensures
        q.times(-1real).image(p) == q.image(p),
{
    let o = q.times(-1real);
    lemma_inner_times(q.axis, -1real, p);
    lemma_inner_times(q.axis, -1real, q.axis.times(-1real));
    lemma_inner_times(q.axis, -1real, q.axis);
    lemma_trivial_factors(q.w);
    lemma_negative(q.w, q.w);
    lemma_negative(-q.w, q.w);
    let k = p.inner(q.axis);
    let c = q.axis.across(p);
    let d = o.axis.across(p);
    assert(d.x == c.x * (-1real) && d.y == c.y * (-1real) && d.z == c.z * (-1real)) by {
        lemma_factors(q.axis.x, -1real, p.y);
        lemma_factors(q.axis.x, -1real, p.z);
        lemma_factors(q.axis.y, -1real, p.x);
        lemma_factors(q.axis.y, -1real, p.z);
        lemma_factors(q.axis.z, -1real, p.x);
        lemma_factors(q.axis.z, -1real, p.y);
    }
    lemma_opposite_coordinate(q.axis.x, k, q.w, c.x);
    lemma_opposite_coordinate(q.axis.y, k, q.w, c.y);
    lemma_opposite_coordinate(q.axis.z, k, q.w, c.z);
}

proof fn lemma_difference_square(p: real, q: real)
    ensures
        (p - q) * (p - q) == p * p - 2real * (p * q) + q * q,
{
    lemma_sum_times(p, q, p - q);
    lemma_sum_times(p, q, p);
    lemma_sum_times(p, q, q);
}

proof fn lemma_square_products(a: real, b: real, c: real, d: real)
    ensures
        (a * a) * (b * b) == (a * b) * (a * b),
        (a * b) * (c * d) == (a * d) * (c * b),
{
    lemma_four_factors(a, a, b, b);
    lemma_four_factors(a, b, d, c);
    lemma_sum_times(c, b, d);
    lemma_sum_times(c, c, b);
}

proof fn lemma_three_times_three(a: real, b: real, c: real, d: real, e: real, f: real)
    ensures
        (a + b + c) * (d + e + f) == a * d + a * e + a * f + b * d + b * e + b * f + c * d + c * e
            + c * f,
{
    lemma_sum_times(a + b, c, d + e + f);
    lemma_sum_times(a, b, d + e + f);
    lemma_sum_times(d + e, f, a);
    lemma_sum_times(d, e, a);
    lemma_sum_times(d + e, f, b);
    lemma_sum_times(d, e, b);
    lemma_sum_times(d + e, f, c);
    lemma_sum_times(d, e, c);
}

/// The square of what is across two arrows.
pub proof fn lemma_across_square(a: Arrow, b: Arrow)
    ensures
        a.across(b).square() == a.square() * b.square() - a.inner(b) * a.inner(b),
{
    let (a1, a2, a3) = (a.x * b.x, a.y * b.y, a.z * b.z);
    lemma_difference_square(a.y * b.z, a.z * b.y);
    lemma_difference_square(a.z * b.x, a.x * b.z);
    lemma_difference_square(a.x * b.y, a.y * b.x);
    lemma_square_products(a.y, b.z, a.z, b.y);
    lemma_square_products(a.z, b.x, a.x, b.z);
    lemma_square_products(a.x, b.y, a.y, b.x);
    lemma_square_products(a.x, b.x, 0real, 0real);
    lemma_square_products(a.x, b.z, 0real, 0real);
    lemma_square_products(a.y, b.x, 0real, 0real);
    lemma_square_products(a.y, b.y, 0real, 0real);
    lemma_square_products(a.z, b.y, 0real, 0real);
    lemma_square_products(a.z, b.z, 0real, 0real);
    lemma_three_times_three(
        a.x * a.x,
        a.y * a.y,
        a.z * a.z,
        b.x * b.x,
        b.y * b.y,
        b.z * b.z,
    );
    lemma_three_times_three(a1, a2, a3, a1, a2, a3);
    lemma_sum_times(a1, 0real, a2);
    lemma_sum_times(a1, 0real, a3);
    lemma_sum_times(a2, 0real, a3);
}

/// A unit rotation turns an arrow about its axis: the length and the part along the axis stay, and
/// what is across the axis and the arrow says how far and to which side it is turned.
pub proof fn lemma_rotation_turns<R: Real>(v: spec_fn(R) -> real, q: Rotation<R>, p: Vector<R>)
    requires
        unrounded(v),
        turn(v, q).inner(turn(v, q)) == 1real,
    ensures
        ({
            let u = turn(v, q).axis;
            let a = arrow(v, p);
            let b = arrow(v, q.rotate(p));
            &&& b.square() == a.square()
            &&& b.inner(u) == a.inner(u)
            &&& b.inner(a) == a.square() - 2real * u.across(a).square()
            &&& b.inner(u.across(a)) == 2real * v(q.w) * u.across(a).square()
        }),
{
    let u = turn(v, q).axis;
    let w = v(q.w);
    let a = arrow(v, p);
    lemma_image(v, q, p);
    let b = turn(v, q).image(a);
    let s = u.square();
    let m = w * w - s;
    let k = a.inner(u);
    let c = u.across(a);
    let (x, y, z) = (a.times(m), u.times(k * 2real), c.times(w * 2real));
    lemma_across(u, a, a);
    lemma_across_square(u, a);
    lemma_inner_times(u, 1real, a);
    lemma_inner_times(c, 1real, a);
    lemma_inner_times(c, 1real, u);
    assert forall|d: Arrow| #[trigger] b.inner(d) == a.inner(d) * m + u.inner(d) * (k * 2real)
        + c.inner(d) * (w * 2real) by {
        lemma_inner_plus(x.plus(y), z, d);
        lemma_inner_plus(x, y, d);
        lemma_inner_times(a, m, d);
        lemma_inner_times(u, k * 2real, d);
        lemma_inner_times(c, w * 2real, d);
    }
    let pp = a.square();
    let cc = c.square();
    assert(u.inner(a) == k);
    assert(cc == s * pp - k * k);
    assert(b.inner(u) == k * m + s * (k * 2real) + 0real * (w * 2real));
    assert(b.inner(a) == pp * m + k * (k * 2real) + 0real * (w * 2real));
    lemma_inner_times(a, 1real, c);
    lemma_inner_times(u, 1real, c);
    assert(a.inner(c) == 0real && u.inner(c) == 0real);
    assert(b.inner(c) == 0real * m + 0real * (k * 2real) + cc * (w * 2real));
    assert(m == 1real - 2real * s);
    lemma_image_products(k, m, s, w, pp, cc);
    lemma_inner_times(b, 1real, a);
    lemma_inner_times(b, 1real, u);
    lemma_inner_times(b, 1real, c);
    let (ba, bu, bc) = (b.inner(a), b.inner(u), b.inner(c));
    assert(b.inner(b) == ba * m + bu * (k * 2real) + bc * (w * 2real));
    assert(w * w == 1real - s);
    lemma_image_square(k, m, s, w, pp, cc);
    lemma_factors(2real, w, cc);
}

/// Powers of a positive number are positive.
pub proof fn lemma_power_positive(x: real, n: nat)
    requires
        x > 0real,
    ensures
        power(x, n) > 0real,
    decreases n,
{
    if n > 0 {
        lemma_power_positive(x, (n - 1) as nat);
        lemma_product_sign(power(x, (n - 1) as nat), x);
    }
}

/// A quotient of positive numbers is positive.
pub proof fn lemma_quotient_positive(a: real, b: real)
    requires
        a > 0real,
        b > 0real,
    ensures
        a / b > 0real,
{
    lemma_quotient(a, b);
    let q = a / b;
    assert(q > 0real) by (nonlinear_arith)
        requires
            q * b > 0real,
            b > 0real,
    ;
}

/// A positive decimal stands for a positive number.
pub proof fn lemma_decimal_positive<R: Real>(v: spec_fn(R) -> real, mantissa: i64, digits: u32)
    requires
        unrounded(v),
        mantissa > 0,
    ensures
        v(R::decimal(mantissa, digits)) > 0real,
{
    fixed::lemma_pow10_positive(digits as nat);
    lemma_quotient_positive((mantissa as int) as real, fixed::pow10(digits as nat) as real);
}

/// A decimal without digits behind the point stands for its mantissa.
pub proof fn lemma_whole<R: Real>(v: spec_fn(R) -> real, mantissa: i64)
    requires
        unrounded(v),
    ensures
        v(R::decimal(mantissa, 0)) == (mantissa as int) as real,
{
    assert(fixed::pow10(0) == 1);
    let m = (mantissa as int) as real;
    lemma_trivial_factors(m);
    lemma_quotient_is(m, 1real, m);
}

/// The cross product with a multiple.
pub proof fn lemma_across_times(a: Arrow, s: real, b: Arrow)
    ensures
        a.times(s).across(b) == a.across(b).times(s),
        b.across(a.times(s)) == b.across(a).times(s),
        a.across(a.times(s)) == Arrow::none(),
{
    lemma_minor(a.y, a.z, b.y, b.z, s);
    lemma_minor(a.z, a.x, b.z, b.x, s);
    lemma_minor(a.x, a.y, b.x, b.y, s);
    lemma_minor(a.y, a.z, a.y, a.z, s);
    lemma_minor(a.z, a.x, a.z, a.x, s);
    lemma_minor(a.x, a.y, a.x, a.y, s);
    lemma_across(a, a, a);
    lemma_trivial_factors(s);
}

/// One coordinate of a cross product with a multiple.
proof fn lemma_minor(a: real, b: real, c: real, d: real, s: real)
    ensures
        (a * s) * d - (b * s) * c == (a * d - b * c) * s,
        c * (b * s) - d * (a * s) == (c * b - d * a) * s,
{
    lemma_factors(a, s, d);
    lemma_factors(b, s, c);
    lemma_factors(a, d, s);
    lemma_factors(b, c, s);
    lemma_factors(c, b, s);
    lemma_factors(d, a, s);
    lemma_sum_times(a * d, b * c, s);
    lemma_sum_times(c * b, d * a, s);
    lemma_sum_times(s, s, d);
    lemma_sum_times(s, s, c);
}

/// The square of a number other than zero is positive.
pub proof fn lemma_positive_square(a: real)
    requires
        a != 0real,
    ensures
        a * a > 0real,
{
    if a > 0real {
        lemma_product_sign(a, a);
    } else {
        lemma_product_sign(-a, -a);
        lemma_negative(a, a);
        lemma_negative(-a, a);
    }
}

/// The inner products of an image with the arrows that it is made of.
proof fn lemma_image_products(k: real, m: real, s: real, w: real, pp: real, cc: real)
    requires
        m == 1real - 2real * s,
        cc == s * pp - k * k,
    ensures
        k * m + s * (k * 2real) + 0real * (w * 2real) == k,
        pp * m + k * (k * 2real) + 0real * (w * 2real) == pp - 2real * cc,
        0real * m + 0real * (k * 2real) + cc * (w * 2real) == 2real * (w * cc),
{
    lemma_trivial_factors(w * 2real);
    lemma_trivial_factors(k * 2real);
    lemma_trivial_factors(m);
    lemma_trivial_factors(k);
    lemma_trivial_factors(pp);
    lemma_sum_times(1real, s + s, k);
    lemma_sum_times(s, s, k);
    lemma_sum_times(k, k, s);
    lemma_sum_times(1real, s + s, pp);
    lemma_sum_times(s, s, pp);
    lemma_sum_times(k, k, k);
    lemma_sum_times(w, w, cc);
    assert(k * 2real == k + k && w * 2real == w + w);
}

/// The square of an image, from its inner products.
proof fn lemma_image_square(k: real, m: real, s: real, w: real, pp: real, cc: real)
    requires
        m == 1real - 2real * s,
        cc == s * pp - k * k,
        w * w == 1real - s,
    ensures
        (pp - 2real * cc) * m + k * (k * 2real) + (2real * (w * cc)) * (w * 2real) == pp,
{
    lemma_sum_times(1real, s + s, pp - 2real * cc);
    lemma_trivial_factors(pp - 2real * cc);
    lemma_sum_times(s, s, pp - 2real * cc);
    lemma_sum_times(pp, cc + cc, s);
    lemma_sum_times(cc, cc, s);
    assert(2real * cc == cc + cc);
    lemma_sum_times(k, k, k);
    assert(k * 2real == k + k);
    let x = w * cc;
    assert(2real * x == x + x && w * 2real == w + w);
    lemma_sum_times(x, x, w + w);
    lemma_sum_times(w, w, x);
    lemma_factors(w, cc, w);
    lemma_sum_times(1real, s, cc);
    lemma_trivial_factors(cc);
}

/// The volume between three arrows does not change when they are taken round.
pub proof fn lemma_cyclic(a: Arrow, b: Arrow, c: Arrow)
    ensures
        a.inner(b.across(c)) == b.inner(c.across(a)),
        a.inner(b.across(c)) == c.inner(a.across(b)),
{
    lemma_volume(a, b, c);
    lemma_volume(b, c, a);
    lemma_volume(c, a, b);
    lemma_taken_round(a.x, b.y, c.z);
    lemma_taken_round(a.y, b.z, c.x);
    lemma_taken_round(a.z, b.x, c.y);
    lemma_taken_round(a.x, b.z, c.y);
    lemma_taken_round(a.y, b.x, c.z);
    lemma_taken_round(a.z, b.y, c.x);
}

/// The volume between three arrows as a sum of six products.
proof fn lemma_volume(a: Arrow, b: Arrow, c: Arrow)
    ensures
        a.inner(b.across(c)) == (a.x * (b.y * c.z) + a.y * (b.z * c.x) + a.z * (b.x * c.y)) - (a.x
            * (b.z * c.y) + a.y * (b.x * c.z) + a.z * (b.y * c.x)),
{
    lemma_sum_times(b.y * c.z, b.z * c.y, a.x);
    lemma_sum_times(b.z * c.x, b.x * c.z, a.y);
    lemma_sum_times(b.x * c.y, b.y * c.x, a.z);
}

proof fn lemma_taken_round(a: real, b: real, c: real)
    ensures
        a * (b * c) == b * (c * a),
        a * (b * c) == c * (a * b),
        a * (c * b) == a * (b * c),
        b * (a * c) == a * (b * c),
        c * (b * a) == a * (b * c),
{
    lemma_factors(a, b, c);
    lemma_factors(b, c, a);
    lemma_factors(c, a, b);
    lemma_sum_times(b, a, c);
    lemma_sum_times(a, a, b);
}

/// What is across an arrow and across it again.
pub proof fn lemma_across_twice(u: Arrow, p: Arrow)
    ensures
        u.across(u.across(p)) == u.times(u.inner(p)).minus(p.times(u.square())),
{
    lemma_across_twice_one(u.x, u.y, u.z, p.x, p.y, p.z);
    lemma_across_twice_one(u.y, u.z, u.x, p.y, p.z, p.x);
    lemma_across_twice_one(u.z, u.x, u.y, p.z, p.x, p.y);
}

/// One coordinate of what is across an arrow twice.
proof fn lemma_across_twice_one(a: real, b: real, c: real, p: real, q: real, r: real)
    ensures
        b * (a * q - b * p) - c * (c * p - a * r) == a * (a * p + b * q + c * r) - p * (a * a + b
            * b + c * c),
{
    lemma_sum_times(a * q, b * p, b);
    lemma_sum_times(c * p, a * r, c);
    lemma_sum_times(a * p + b * q, c * r, a);
    lemma_sum_times(a * p, b * q, a);
    lemma_sum_times(a * a + b * b, c * c, p);
    lemma_sum_times(a * a, b * b, p);
    lemma_taken_round(b, a, q);
    lemma_taken_round(b, b, p);
    lemma_taken_round(c, c, p);
    lemma_taken_round(c, a, r);
    lemma_taken_round(a, a, p);
    lemma_taken_round(p, a, a);
    lemma_taken_round(p, b, b);
    lemma_taken_round(p, c, c);
}

/// Rotating a sum is rotating its parts.
pub proof fn lemma_image_of_sum(q: Turn, a: Arrow, b: Arrow)
    ensures
        q.image(a.plus(b)) == q.image(a).plus(q.image(b)),
        q.image(a.minus(b)) == q.image(a).minus(q.image(b)),
{
    let (u, w) = (q.axis, q.w);
    let m = w * w - u.square();
    lemma_inner_plus(a, b, u);
    lemma_across_sum(u, a, b);
    let (s, d) = (a.plus(b), a.minus(b));
    let (k, l) = (a.inner(u), b.inner(u));
    let (c, e) = (u.across(a), u.across(b));
    assert((k + l) * 2real == k * 2real + l * 2real && (k - l) * 2real == k * 2real - l * 2real);
    lemma_image_part(a.x, b.x, m, u.x, k * 2real, l * 2real, c.x, e.x, w * 2real);
    lemma_image_part(a.y, b.y, m, u.y, k * 2real, l * 2real, c.y, e.y, w * 2real);
    lemma_image_part(a.z, b.z, m, u.z, k * 2real, l * 2real, c.z, e.z, w * 2real);
}

/// The cross product with a sum.
pub proof fn lemma_across_sum(u: Arrow, a: Arrow, b: Arrow)
    ensures
        u.across(a.plus(b)) == u.across(a).plus(u.across(b)),
        u.across(a.minus(b)) == u.across(a).minus(u.across(b)),
{
    lemma_sum_times(a.x, b.x, u.y);
    lemma_sum_times(a.x, b.x, u.z);
    lemma_sum_times(a.y, b.y, u.x);
    lemma_sum_times(a.y, b.y, u.z);
    lemma_sum_times(a.z, b.z, u.x);
    lemma_sum_times(a.z, b.z, u.y);
}

/// One coordinate of the image of a sum.
proof fn lemma_image_part(
    a: real,
    b: real,
    m: real,
    u: real,
    k: real,
    l: real,
    c: real,
    e: real,
    w: real,
)
    ensures
        (a + b) * m + u * (k + l) + (c + e) * w == (a * m + u * k + c * w) + (b * m + u * l + e
            * w),
        (a - b) * m + u * (k - l) + (c - e) * w == (a * m + u * k + c * w) - (b * m + u * l + e
            * w),
{
    lemma_sum_times(a, b, m);
    lemma_sum_times(k, l, u);
    lemma_sum_times(c, e, w);
}

/// The rotation back undoes a rotation of unit length.
pub proof fn lemma_rotated_back(q: Turn, p: Arrow)
    requires
        q.inner(q) == 1real,
    ensures
        (Turn { axis: q.axis.times(-1real), w: q.w }).image(q.image(p)) == p,
{
    let (u, w) = (q.axis, q.w);
    let s = u.square();
    let m = w * w - s;
    let k = p.inner(u);
    let c = u.across(p);
    let b = q.image(p);
    let back = Turn { axis: u.times(-1real), w };
    let o = back.axis;
    lemma_trivial_factors(u.x);
    lemma_trivial_factors(u.y);
    lemma_trivial_factors(u.z);
    lemma_inner_times(u, -1real, o);
    lemma_inner_times(u, -1real, u);
    assert(o.square() == s);
    // Along the axis nothing changes.
    lemma_inner_plus(p.times(m).plus(u.times(k * 2real)), c.times(w * 2real), u);
    lemma_inner_plus(p.times(m), u.times(k * 2real), u);
    lemma_inner_times(p, m, u);
    lemma_inner_times(u, k * 2real, u);
    lemma_inner_times(c, w * 2real, u);
    lemma_across(u, p, p);
    lemma_image_products(k, m, s, w, p.square(), s * p.square() - k * k);
    assert(w * w == 1real - s);
    assert(b.inner(u) == k);
    lemma_inner_times(u, -1real, b);
    assert(b.inner(o) == -k);
    // Across the axis the rotation goes back.
    lemma_across_sum(u, p.times(m).plus(u.times(k * 2real)), c.times(w * 2real));
    lemma_across_sum(u, p.times(m), u.times(k * 2real));
    lemma_across_times(p, m, u);
    lemma_across_times(u, k * 2real, u);
    lemma_across_times(c, w * 2real, u);
    lemma_across_twice(u, p);
    lemma_inner_times(u, 1real, p);
    let t = u.across(c);
    assert(t == u.times(k).minus(p.times(s)));
    assert(u.across(b) == c.times(m).plus(t.times(w * 2real)));
    lemma_across_times(u, -1real, b);
    lemma_back_one(p.x, u.x, c.x, k, m, s, w, t.x);
    lemma_back_one(p.y, u.y, c.y, k, m, s, w, t.y);
    lemma_back_one(p.z, u.z, c.z, k, m, s, w, t.z);
    assert((-k) * 2real == -(k * 2real));
    lemma_negative(u.x, k * 2real);
    lemma_negative(-u.x, k * 2real);
    lemma_negative(u.y, k * 2real);
    lemma_negative(-u.y, k * 2real);
    lemma_negative(u.z, k * 2real);
    lemma_negative(-u.z, k * 2real);
    let y = u.across(b);
    lemma_trivial_factors(y.x);
    lemma_trivial_factors(y.y);
    lemma_trivial_factors(y.z);
    lemma_negative(y.x, w * 2real);
    lemma_negative(y.y, w * 2real);
    lemma_negative(y.z, w * 2real);
}

/// One coordinate of a rotation there and back.
proof fn lemma_back_one(
    p: real,
    u: real,
    c: real,
    k: real,
    m: real,
    s: real,
    w: real,
    t: real,
)
    requires
        w * w == 1real - s,
        m == 1real - 2real * s,
        t == u * k - p * s,
    ensures
        (p * m + u * (k * 2real) + c * (w * 2real)) * m + u * (k * 2real) - (c * m + t * (w
            * 2real)) * (w * 2real) == p,
{
    let (ww, kk) = (w + w, k + k);
    assert(w * 2real == ww && k * 2real == kk);
    lemma_sum_times(p * m + u * kk, c * ww, m);
    lemma_sum_times(p * m, u * kk, m);
    lemma_sum_times(c * m, t * ww, ww);
    lemma_factors(c, ww, m);
    lemma_factors(t, ww, ww);
    lemma_sum_times(w, w, ww);
    lemma_sum_times(w, w, w);
    let f = 4real * (1real - s);
    assert(ww * ww == f);
    // What is left is made of the arrow itself and of the axis.
    lemma_sum_times(u * k, p * s, f);
    lemma_factors(p, m, m);
    lemma_factors(u, kk, m);
    lemma_factors(u, k, f);
    lemma_factors(p, s, f);
    lemma_sum_times(m * m, s * f, p);
    lemma_sum_times(kk * m, k * f, u);
    lemma_sum_times(kk * m - k * f, kk, u);
    lemma_sum_times(1real, s + s, m);
    lemma_sum_times(1real, s + s, s);
    lemma_sum_times(s, s, m);
    lemma_sum_times(s, s, s);
    lemma_sum_times(1real, s, s);
    lemma_trivial_factors(m);
    lemma_trivial_factors(s);
    lemma_trivial_factors(k);
    lemma_sum_times(1real - s, 0real, s);
    assert(s * f == 4real * (s - s * s)) by {
        lemma_sum_times(1real, s, s);
        lemma_factors(s, 4real, 1real - s);
    }
    assert(m * m == 1real - 4real * s + 4real * (s * s));
    assert(m * m + s * f == 1real);
    lemma_sum_times(1real, s + s, kk);
    lemma_sum_times(k, k, s + s);
    lemma_sum_times(s, s, k);
    lemma_sum_times(1real, s, k);
    assert(kk * m == kk - 4real * (k * s));
    assert(k * f == 4real * (k - k * s)) by {
        lemma_factors(k, 4real, 1real - s);
    }
    assert(kk * m - k * f + kk == 0real);
    lemma_trivial_factors(p);
    lemma_trivial_factors(u);
}

} // verus!
