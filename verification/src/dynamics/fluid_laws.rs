//! What the forces of a fluid are for, where arithmetic does not round.
use vstd::prelude::*;
use crate::dynamics::fluid;
use crate::dynamics::fluid::{FluidParams, FluidParticle, Surroundings};
use crate::math::Vector;
use crate::reals;
use crate::reals::{arrow, power, unrounded, Arrow};
use crate::scalar::Real;

verus! {

/// The arrow from one particle to another.
pub open spec fn apart<R: Real>(
    v: spec_fn(R) -> real,
    p: FluidParticle<R>,
    q: FluidParticle<R>,
) -> Arrow {
    arrow(v, p.pos).minus(arrow(v, q.pos))
}

/// Whether two particles are within the radius, and not at one place.
pub open spec fn near<R: Real>(
    v: spec_fn(R) -> real,
    p: FluidParticle<R>,
    q: FluidParticle<R>,
    h: R,
) -> bool {
    v(R::decimal(1, 18)) < apart(v, p, q).square() < v(h) * v(h)
}

proof fn lemma_near<R: Real>(
    v: spec_fn(R) -> real,
    p: FluidParticle<R>,
    q: FluidParticle<R>,
    h: R,
)
    requires
        unrounded(v),
    ensures
        Surroundings::within(p, q, h) <==> near(v, p, q, h),
{
    reals::lemma_vectors(v, p.pos, q.pos, h);
    let r = p.pos.sub(q.pos);
    reals::lemma_vectors(v, r, r, h);
}

/// Whether the second side of a square is shorter.
proof fn lemma_shorter(a: real, b: real)
    requires
        a >= 0real,
        b >= 0real,
        a * a < b * b,
    ensures
        a < b,
{
    if a >= b {
        reals::lemma_product_sign(a - b, a);
        reals::lemma_product_sign(a - b, b);
        reals::lemma_sum_times(a, b, a);
        reals::lemma_sum_times(a, b, b);
    }
}

/// The number in front of the pressure and viscosity kernels.
proof fn lemma_front<R: Real>(v: spec_fn(R) -> real, h: R)
    requires
        unrounded(v),
        v(h) > 0real,
    ensures
        v(R::decimal(45, 0).div(R::pi().mul(h.powi(6)))) > 0real,
        v(R::decimal(45, 0).div(R::pi().mul(h.powi(6)))) * (v(R::pi()) * power(v(h), 6)) == 45real,
{
    reals::lemma_whole(v, 45);
    reals::lemma_power_positive(v(h), 6);
    reals::lemma_product_sign(v(R::pi()), power(v(h), 6));
    reals::lemma_quotient_positive(45real, v(R::pi()) * power(v(h), 6));
    reals::lemma_quotient(45real, v(R::pi()) * power(v(h), 6));
}

/// The viscosity kernel is `45 (h − d) / (π h⁶)` within the radius: positive there, and zero
/// beyond.
pub proof fn lemma_viscosity_kernel<R: Real>(v: spec_fn(R) -> real, d: R, h: R)
    requires
        unrounded(v),
        v(h) > 0real,
    ensures
        v(fluid::viscosity_laplacian(d, h)) >= 0real,
        v(d) < v(h) ==> v(fluid::viscosity_laplacian(d, h)) > 0real,
        v(d) >= v(h) ==> v(fluid::viscosity_laplacian(d, h)) == 0real,
        v(d) < v(h) ==> v(fluid::viscosity_laplacian(d, h)) * (v(R::pi()) * power(v(h), 6))
            == 45real * (v(h) - v(d)),
{
    lemma_front(v, h);
    let k = v(R::decimal(45, 0).div(R::pi().mul(h.powi(6))));
    let x = v(h) - v(d);
    if v(d) < v(h) {
        reals::lemma_product_sign(k, x);
        reals::lemma_factors(k, x, v(R::pi()) * power(v(h), 6));
    }
}

/// How strongly the pressure kernel points against an offset of the given length.
spec fn steepness<R: Real>(v: spec_fn(R) -> real, l: real, h: R) -> real {
    if l <= v(R::decimal(1, 9)) || v(h) <= l {
        0real
    } else {
        v(R::decimal(45, 0).div(R::pi().mul(h.powi(6)))) * (v(h) - l) * (v(h) - l) / l
    }
}

proof fn lemma_steepness<R: Real>(v: spec_fn(R) -> real, r: Vector<R>, h: R)
    requires
        unrounded(v),
        v(h) > 0real,
    ensures
        steepness(v, v(r.length()), h) >= 0real,
        arrow(v, fluid::spiky_gradient(r, h)) == arrow(v, r).times(
            -steepness(v, v(r.length()), h),
        ),
        v(R::decimal(1, 18)) < arrow(v, r).square() < v(h) * v(h) ==> steepness(
            v,
            v(r.length()),
            h,
        ) > 0real,
        v(R::decimal(1, 18)) < arrow(v, r).square() < v(h) * v(h) ==> (steepness(
            v,
            v(r.length()),
            h,
        ) * v(r.length())) * (v(R::pi()) * power(v(h), 6)) == 45real * ((v(h) - v(r.length())) * (v(
            h,
        ) - v(r.length()))),
        arrow(v, r).square() >= v(h) * v(h) ==> steepness(v, v(r.length()), h) == 0real,
{
    let d = r.length();
    reals::lemma_vectors(v, r, r, d);
    reals::lemma_decimal_positive(v, 1, 9);
    let l = v(d);
    let a = arrow(v, r);
    if l > v(R::decimal(1, 9)) && l < v(h) {
        lemma_front(v, h);
        let c = R::decimal(45, 0).div(R::pi().mul(h.powi(6))).mul(h.sub(d)).mul(h.sub(d));
        let f = v(R::decimal(45, 0).div(R::pi().mul(h.powi(6))));
        let x = v(h) - l;
        reals::lemma_product_sign(f, x);
        reals::lemma_product_sign(f * x, x);
        assert(v(c) == f * x * x);
        let o = r.neg();
        reals::lemma_vectors(v, o, o, d);
        reals::lemma_vectors(v, o.div(d), o, c);
        let k = v(c) / l;
        reals::lemma_quotient(v(c), l);
        reals::lemma_quotient_positive(v(c), l);
        let n = arrow(v, o.div(d));
        lemma_direction(n.x, l, a.x, v(c), k);
        lemma_direction(n.y, l, a.y, v(c), k);
        lemma_direction(n.z, l, a.z, v(c), k);
        reals::lemma_factors(f, x, x);
        reals::lemma_factors(f, x * x, v(R::pi()) * power(v(h), 6));
        if a.square() >= v(h) * v(h) {
            lemma_shorter_or_equal(l, v(h));
        }
    } else {
        if v(R::decimal(1, 18)) < a.square() < v(h) * v(h) {
            lemma_shorter(l, v(h));
            lemma_nine_digits(v);
            lemma_shorter(v(R::decimal(1, 9)), l);
        }
        reals::lemma_trivial_factors(a.x);
        reals::lemma_trivial_factors(a.y);
        reals::lemma_trivial_factors(a.z);
        assert(-0real == 0real);
        assert(a.times(-0real) == Arrow::none());
    }
}

/// The slope of the pressure kernel points against the offset, with the size
/// `45 (h − r)² / (π h⁶)`, and is nothing beyond the radius.
pub proof fn lemma_pressure_kernel<R: Real>(v: spec_fn(R) -> real, r: Vector<R>, h: R) -> (k: real)
    requires
        unrounded(v),
        v(h) > 0real,
    ensures
        k >= 0real,
        arrow(v, fluid::spiky_gradient(r, h)) == arrow(v, r).times(-k),
        v(R::decimal(1, 18)) < arrow(v, r).square() < v(h) * v(h) ==> k > 0real && (k * v(
            r.length(),
        )) * (v(R::pi()) * power(v(h), 6)) == 45real * ((v(h) - v(r.length())) * (v(h) - v(
            r.length(),
        ))),
        arrow(v, r).square() >= v(h) * v(h) ==> k == 0real,
{
    lemma_steepness(v, r, h);
    steepness(v, v(r.length()), h)
}

proof fn lemma_shorter_or_equal(a: real, b: real)
    requires
        0real <= a < b,
    ensures
        a * a < b * b,
{
    reals::lemma_product_sign(b - a, b);
    reals::lemma_product_sign(b - a, a);
    reals::lemma_sum_times(b, a, b);
    reals::lemma_sum_times(b, a, a);
}

/// The square of the shortest distance that counts.
proof fn lemma_nine_digits<R: Real>(v: spec_fn(R) -> real)
    requires
        unrounded(v),
    ensures
        v(R::decimal(1, 9)) * v(R::decimal(1, 9)) == v(R::decimal(1, 18)),
{
    let t = crate::fixed::pow10(9) as real;
    assert(crate::fixed::pow10(9) == 1_000_000_000 && crate::fixed::pow10(18)
        == 1_000_000_000_000_000_000) by {
        reveal_with_fuel(crate::fixed::pow10, 20);
    }
    let q = 1real / 1_000_000_000real;
    reals::lemma_quotient(1real, 1_000_000_000real);
    assert(q * q == 1real / 1_000_000_000_000_000_000real) by {
        reals::lemma_quotient_is(1real, 1_000_000_000_000_000_000real, q * q);
    }
}

/// One coordinate of a slope.
proof fn lemma_direction(n: real, l: real, a: real, c: real, k: real)
    requires
        n * l == a * (-1real),
        k * l == c,
    ensures
        n * c == a * (-k),
{
    reals::lemma_factors(n, k, l);
    reals::lemma_factors(n, l, k);
    reals::lemma_trivial_factors(a);
    reals::lemma_negative(a, k);
}

/// The weight of a mass in a density is `315 (h² − d²)³ / (64 π h⁹)` within the radius: positive
/// there, zero beyond, and smaller the further away the mass is.
pub proof fn lemma_density_kernel<R: Real>(v: spec_fn(R) -> real, d: R, e: R, h: R)
    requires
        unrounded(v),
        v(h) > 0real,
        0real <= v(d) <= v(e),
    ensures
        v(fluid::poly6(d, h)) >= 0real,
        v(d) < v(h) ==> v(fluid::poly6(d, h)) > 0real,
        v(d) >= v(h) ==> v(fluid::poly6(d, h)) == 0real,
        v(d) < v(h) ==> v(fluid::poly6(d, h)) * (64real * v(R::pi()) * power(v(h), 9)) == 315real
            * power(v(h) * v(h) - v(d) * v(d), 3),
        v(fluid::poly6(e, h)) <= v(fluid::poly6(d, h)),
        v(d) < v(e) && v(d) < v(h) ==> v(fluid::poly6(e, h)) < v(fluid::poly6(d, h)),
{
    reals::lemma_whole(v, 315);
    reals::lemma_whole(v, 64);
    let hh = v(h);
    reals::lemma_power_positive(hh, 9);
    reals::lemma_product_sign(64real, v(R::pi()));
    let den = 64real * v(R::pi()) * power(hh, 9);
    reals::lemma_product_sign(64real * v(R::pi()), power(hh, 9));
    reals::lemma_quotient_positive(315real, den);
    let k = 315real / den;
    let (x, y) = (hh * hh - v(d) * v(d), hh * hh - v(e) * v(e));
    if v(d) < hh {
        lemma_shorter_or_equal(v(d), hh);
        lemma_cube(x);
        reals::lemma_product_sign(k, power(x, 3));
        reals::lemma_quotient(315real, den);
        reals::lemma_factors(k, power(x, 3), den);
    }
    if v(e) < hh {
        lemma_shorter_or_equal(v(e), hh);
        lemma_cube(y);
        reals::lemma_product_sign(k, power(y, 3));
        if v(d) < v(e) {
            lemma_shorter_or_equal(v(d), v(e));
            lemma_cubes(y, x);
            reals::lemma_product_sign(k, power(x, 3) - power(y, 3));
            reals::lemma_sum_times(power(x, 3), power(y, 3), k);
        }
    }
}

proof fn lemma_cube(x: real)
    requires
        x > 0real,
    ensures
        power(x, 3) > 0real,
{
    reals::lemma_power_positive(x, 3);
}

proof fn lemma_cubes(y: real, x: real)
    requires
        0real < y < x,
    ensures
        power(y, 3) < power(x, 3),
{
    reveal_with_fuel(power, 4);
    reals::lemma_trivial_factors(x);
    reals::lemma_trivial_factors(y);
    lemma_shorter_or_equal(y, x);
    let (p, q) = (x * x, y * y);
    reals::lemma_product_sign(y, y);
    reals::lemma_product_sign(p - q, x);
    reals::lemma_product_sign(q, x - y);
    reals::lemma_sum_times(p, q, x);
    reals::lemma_sum_times(x, y, q);
}

/// The share of the pressures of two particles.
spec fn shared<R: Real>(v: spec_fn(R) -> real, p: FluidParticle<R>, q: FluidParticle<R>) -> real {
    v(p.pressure) / (v(p.density) * v(p.density)) + v(q.pressure) / (v(q.density) * v(q.density))
}

/// What one more particle adds to the pressure terms.
proof fn lemma_pressure_added<R: Real>(
    v: spec_fn(R) -> real,
    s: Surroundings<R>,
    p: FluidParticle<R>,
    q: FluidParticle<R>,
    h: R,
)
    requires
        unrounded(v),
        v(h) > 0real,
        v(p.density) != 0real,
        v(q.density) != 0real,
    ensures
        arrow(v, s.with(p, q, h).pressure) == arrow(v, s.pressure).plus(
            apart(v, p, q).times(-steepness(v, v(p.pos.sub(q.pos).length()), h)).times(
                v(q.mass) * shared(v, p, q),
            ),
        ),
{
    let r = p.pos.sub(q.pos);
    lemma_steepness(v, r, h);
    reals::lemma_vectors(v, p.pos, q.pos, h);
    let (a, b) = (v(p.density), v(q.density));
    reals::lemma_positive_square(a);
    reals::lemma_positive_square(b);
    let e = p.pressure.div(p.density.mul(p.density)).add(q.pressure.div(q.density.mul(q.density)));
    let g = fluid::spiky_gradient(r, h);
    reals::lemma_vectors(v, g, g, q.mass.mul(e));
    reals::lemma_vectors(v, s.pressure, g.scale(q.mass.mul(e)), h);
}

/// What one more particle adds to the viscosity terms.
proof fn lemma_viscosity_added<R: Real>(
    v: spec_fn(R) -> real,
    s: Surroundings<R>,
    p: FluidParticle<R>,
    q: FluidParticle<R>,
    h: R,
) -> (k: real)
    requires
        unrounded(v),
        v(h) > 0real,
        v(q.density) > 0real,
        v(q.mass) >= 0real,
        near(v, p, q, h),
    ensures
        k >= 0real,
        v(q.mass) > 0real ==> k > 0real,
        arrow(v, s.with(p, q, h).viscosity) == arrow(v, s.viscosity).plus(
            arrow(v, q.vel).minus(arrow(v, p.vel)).times(k),
        ),
{
    let r = p.pos.sub(q.pos);
    let d = r.length_squared().sqrt();
    reals::lemma_vectors(v, p.pos, q.pos, h);
    reals::lemma_vectors(v, r, r, h);
    lemma_shorter(v(d), v(h));
    lemma_viscosity_kernel(v, d, h);
    let w = fluid::viscosity_laplacian(d, h);
    let share = v(q.mass) / v(q.density);
    reals::lemma_quotient(v(q.mass), v(q.density));
    if v(q.mass) > 0real {
        reals::lemma_quotient_positive(v(q.mass), v(q.density));
    } else {
        reals::lemma_trivial_factors(v(q.density));
        reals::lemma_quotient_is(0real, v(q.density), 0real);
    }
    reals::lemma_product_sign(share, v(w));
    let dv = q.vel.sub(p.vel);
    reals::lemma_vectors(v, q.vel, p.vel, h);
    reals::lemma_vectors(v, dv, dv, q.mass);
    let f = dv.scale(q.mass);
    reals::lemma_vectors(v, f, f, q.density);
    let g = f.div(q.density);
    reals::lemma_vectors(v, g, g, w);
    reals::lemma_vectors(v, s.viscosity, g.scale(w), h);
    let (a, b) = (arrow(v, dv), arrow(v, g));
    lemma_shared_mass(b.x, a.x, v(q.mass), v(q.density), v(w));
    lemma_shared_mass(b.y, a.y, v(q.mass), v(q.density), v(w));
    lemma_shared_mass(b.z, a.z, v(q.mass), v(q.density), v(w));
    share * v(w)
}

/// One coordinate of a viscosity term.
proof fn lemma_shared_mass(x: real, d: real, m: real, rho: real, w: real)
    requires
        rho > 0real,
        x * rho == d * m,
    ensures
        x * w == d * ((m / rho) * w),
{
    let share = m / rho;
    reals::lemma_quotient(m, rho);
    reals::lemma_factors(d, share, rho);
    reals::lemma_cancel(x, d * share, rho);
    reals::lemma_factors(d, share, w);
}

/// Pressure is mutual: what one particle gets from another times its mass is the opposite of what
/// the other gets from it times the mass of that.
pub proof fn lemma_pressure_is_mutual<R: Real>(
    v: spec_fn(R) -> real,
    p: FluidParticle<R>,
    q: FluidParticle<R>,
    h: R,
)
    requires
        unrounded(v),
        v(h) > 0real,
        v(p.density) != 0real,
        v(q.density) != 0real,
    ensures
        arrow(v, Surroundings::<R>::spec_none().with(p, q, h).pressure).times(v(p.mass)).plus(
            arrow(v, Surroundings::<R>::spec_none().with(q, p, h).pressure).times(v(q.mass)),
        ) == Arrow::none(),
{
    lemma_pressure_added(v, Surroundings::<R>::spec_none(), p, q, h);
    lemma_pressure_added(v, Surroundings::<R>::spec_none(), q, p, h);
    reals::lemma_vectors(v, p.pos, q.pos, h);
    reals::lemma_vectors(v, q.pos, p.pos, h);
    let (r, s) = (apart(v, p, q), apart(v, q, p));
    reals::lemma_trivial_factors(r.x);
    reals::lemma_trivial_factors(r.y);
    reals::lemma_trivial_factors(r.z);
    assert(s == r.times(-1real));
    let (a, b) = (p.pos.sub(q.pos), q.pos.sub(p.pos));
    reals::lemma_vectors(v, a, a, h);
    reals::lemma_vectors(v, b, b, h);
    reals::lemma_negative(r.x, r.x);
    reals::lemma_negative(r.y, r.y);
    reals::lemma_negative(r.z, r.z);
    reals::lemma_negative(-r.x, r.x);
    reals::lemma_negative(-r.y, r.y);
    reals::lemma_negative(-r.z, r.z);
    assert(r.square() == s.square());
    reals::lemma_same_square(v(a.length()), v(b.length()));
    let k = steepness(v, v(a.length()), h);
    let e = shared(v, p, q);
    let (mp, mq) = (v(p.mass), v(q.mass));
    lemma_mutual(r.x, k, mp, mq, e);
    lemma_mutual(r.y, k, mp, mq, e);
    lemma_mutual(r.z, k, mp, mq, e);
}

/// One coordinate of the two pressures.
proof fn lemma_mutual(x: real, k: real, mp: real, mq: real, e: real)
    ensures
        (0real + (x * (-k)) * (mq * e)) * mp + (0real + ((-x) * (-k)) * (mp * e)) * mq == 0real,
{
    let z = x * (-k);
    reals::lemma_negative(x, -k);
    reals::lemma_negative(z, mp * e);
    reals::lemma_negative(z * (mp * e), mq);
    reals::lemma_factors(z, mq * e, mp);
    reals::lemma_factors(z, mp * e, mq);
    reals::lemma_factors(mq, e, mp);
    reals::lemma_factors(mp, e, mq);
    reals::lemma_sum_times(mp, 0real, mq);
    reals::lemma_sum_times(e, 0real, mp * mq);
    reals::lemma_factors(mp, mq, e);
    reals::lemma_factors(mq, mp, e);
}

/// Whether particles have masses, densities and pressures that a fluid can have.
spec fn sound<R: Real>(v: spec_fn(R) -> real, ps: Seq<FluidParticle<R>>) -> bool {
    forall|j: int|
        0 <= j < ps.len() ==> v((#[trigger] ps[j]).mass) >= 0real && v(ps[j].density) > 0real && v(
            ps[j].pressure,
        ) >= 0real
}

proof fn lemma_shared<R: Real>(
    v: spec_fn(R) -> real,
    p: FluidParticle<R>,
    q: FluidParticle<R>,
)
    requires
        v(p.density) > 0real,
        v(q.density) > 0real,
        v(p.pressure) >= 0real,
        v(q.pressure) >= 0real,
    ensures
        shared(v, p, q) >= 0real,
        v(p.pressure) > 0real || v(q.pressure) > 0real ==> shared(v, p, q) > 0real,
        v(p.pressure) == 0real && v(q.pressure) == 0real ==> shared(v, p, q) == 0real,
{
    lemma_part(v(p.pressure), v(p.density));
    lemma_part(v(q.pressure), v(q.density));
}

/// The sign of a pressure over the square of a density.
proof fn lemma_part(a: real, b: real)
    requires
        a >= 0real,
        b > 0real,
    ensures
        a / (b * b) >= 0real,
        a > 0real ==> a / (b * b) > 0real,
        a == 0real ==> a / (b * b) == 0real,
{
    reals::lemma_product_sign(b, b);
    if a > 0real {
        reals::lemma_quotient_positive(a, b * b);
    } else {
        reals::lemma_trivial_factors(b * b);
        reals::lemma_quotient_is(0real, b * b, 0real);
    }
}

/// Viscosity terms lean to where the velocities around lean to.
proof fn lemma_viscosity_leans<R: Real>(
    v: spec_fn(R) -> real,
    ps: Seq<FluidParticle<R>>,
    i: int,
    h: R,
    n: nat,
    u: Arrow,
    m: int,
)
    requires
        unrounded(v),
        v(h) > 0real,
        0 <= i < ps.len(),
        n <= ps.len(),
        sound(v, ps),
        forall|j: int|
            0 <= j < n && j != i && near(v, ps[i], #[trigger] ps[j], h) ==> arrow(
                v,
                ps[j].vel,
            ).minus(arrow(v, ps[i].vel)).inner(u) >= 0real,
    ensures
        arrow(v, fluid::surroundings(ps, i, h, n).viscosity).inner(u) >= 0real,
        0 <= m < n && m != i && near(v, ps[i], ps[m], h) && v(ps[m].mass) > 0real && arrow(
            v,
            ps[m].vel,
        ).minus(arrow(v, ps[i].vel)).inner(u) > 0real ==> arrow(
            v,
            fluid::surroundings(ps, i, h, n).viscosity,
        ).inner(u) > 0real,
    decreases n,
{
    if n == 0 {
        reals::lemma_vectors(v, ps[i].pos, ps[i].pos, h);
        reals::lemma_trivial_factors(u.x);
        reals::lemma_trivial_factors(u.y);
        reals::lemma_trivial_factors(u.z);
    } else {
        lemma_viscosity_leans(v, ps, i, h, (n - 1) as nat, u, m);
        let (p, q) = (ps[i], ps[n - 1]);
        lemma_near(v, p, q, h);
        if n - 1 != i && near(v, p, q, h) {
            let s = fluid::surroundings(ps, i, h, (n - 1) as nat);
            let k = lemma_viscosity_added(v, s, p, q, h);
            let d = arrow(v, q.vel).minus(arrow(v, p.vel));
            reals::lemma_inner_plus(arrow(v, s.viscosity), d.times(k), u);
            reals::lemma_inner_times(d, k, u);
            reals::lemma_product_sign(d.inner(u), k);
        }
    }
}

/// Pressure terms lean away from where the offsets lean to, and are nothing where there is no
/// pressure.
proof fn lemma_pressure_leans<R: Real>(
    v: spec_fn(R) -> real,
    ps: Seq<FluidParticle<R>>,
    i: int,
    h: R,
    n: nat,
    u: Arrow,
    m: int,
)
    requires
        unrounded(v),
        v(h) > 0real,
        0 <= i < ps.len(),
        n <= ps.len(),
        sound(v, ps),
        forall|j: int|
            0 <= j < n && j != i && near(v, ps[i], #[trigger] ps[j], h) ==> apart(
                v,
                ps[i],
                ps[j],
            ).inner(u) >= 0real || (v(ps[i].pressure) == 0real && v(ps[j].pressure) == 0real),
    ensures
        arrow(v, fluid::surroundings(ps, i, h, n).pressure).inner(u) <= 0real,
        0 <= m < n && m != i && near(v, ps[i], ps[m], h) && v(ps[m].mass) > 0real && apart(
            v,
            ps[i],
            ps[m],
        ).inner(u) > 0real && (v(ps[i].pressure) > 0real || v(ps[m].pressure) > 0real) ==> arrow(
            v,
            fluid::surroundings(ps, i, h, n).pressure,
        ).inner(u) < 0real,
    decreases n,
{
    if n == 0 {
        reals::lemma_vectors(v, ps[i].pos, ps[i].pos, h);
        reals::lemma_trivial_factors(u.x);
        reals::lemma_trivial_factors(u.y);
        reals::lemma_trivial_factors(u.z);
    } else {
        lemma_pressure_leans(v, ps, i, h, (n - 1) as nat, u, m);
        let (p, q) = (ps[i], ps[n - 1]);
        lemma_near(v, p, q, h);
        if n - 1 != i && near(v, p, q, h) {
            let s = fluid::surroundings(ps, i, h, (n - 1) as nat);
            lemma_pressure_added(v, s, p, q, h);
            let r = p.pos.sub(q.pos);
            lemma_steepness(v, r, h);
            reals::lemma_vectors(v, p.pos, q.pos, h);
            let k = steepness(v, v(r.length()), h);
            let e = shared(v, p, q);
            lemma_shared(v, p, q);
            let d = apart(v, p, q);
            let w = v(q.mass) * e;
            reals::lemma_product_sign(v(q.mass), e);
            reals::lemma_trivial_factors(v(q.mass));
            reals::lemma_inner_plus(arrow(v, s.pressure), d.times(-k).times(w), u);
            reals::lemma_inner_times(d.times(-k), w, u);
            reals::lemma_inner_times(d, -k, u);
            let x = d.inner(u);
            reals::lemma_negative(x, k);
            reals::lemma_negative(x * k, w);
            if e == 0real {
                reals::lemma_trivial_factors(x * (-k));
            } else {
                reals::lemma_product_sign(x, k);
                reals::lemma_product_sign(x * k, w);
            }
        }
    }
}

/// The sum of the positions around leans to where the particles around are.
proof fn lemma_positions_lean<R: Real>(
    v: spec_fn(R) -> real,
    ps: Seq<FluidParticle<R>>,
    i: int,
    h: R,
    n: nat,
    u: Arrow,
    m: int,
)
    requires
        unrounded(v),
        v(h) > 0real,
        0 <= i < ps.len(),
        n <= ps.len(),
        n <= usize::MAX,
        forall|j: int|
            0 <= j < n && j != i && near(v, ps[i], #[trigger] ps[j], h) ==> apart(
                v,
                ps[j],
                ps[i],
            ).inner(u) >= 0real,
    ensures
        fluid::surroundings(ps, i, h, n).count <= n,
        arrow(v, fluid::surroundings(ps, i, h, n).positions).inner(u) >= arrow(v, ps[i].pos).inner(
            u,
        ) * ((fluid::surroundings(ps, i, h, n).count as int) as real),
        0 <= m < n && m != i && near(v, ps[i], ps[m], h) ==> fluid::surroundings(
            ps,
            i,
            h,
            n,
        ).count > 0,
        0 <= m < n && m != i && near(v, ps[i], ps[m], h) && apart(v, ps[m], ps[i]).inner(u) > 0real
            ==> arrow(v, fluid::surroundings(ps, i, h, n).positions).inner(u) > arrow(
            v,
            ps[i].pos,
        ).inner(u) * ((fluid::surroundings(ps, i, h, n).count as int) as real),
    decreases n,
{
    let c = arrow(v, ps[i].pos).inner(u);
    if n == 0 {
        reals::lemma_vectors(v, ps[i].pos, ps[i].pos, h);
        reals::lemma_trivial_factors(u.x);
        reals::lemma_trivial_factors(u.y);
        reals::lemma_trivial_factors(u.z);
        reals::lemma_trivial_factors(c);
    } else {
        lemma_positions_lean(v, ps, i, h, (n - 1) as nat, u, m);
        let (p, q) = (ps[i], ps[n - 1]);
        lemma_near(v, p, q, h);
        if n - 1 != i && near(v, p, q, h) {
            let s = fluid::surroundings(ps, i, h, (n - 1) as nat);
            reals::lemma_vectors(v, s.positions, q.pos, h);
            reals::lemma_inner_plus(arrow(v, s.positions), arrow(v, q.pos), u);
            reals::lemma_inner_plus(arrow(v, q.pos), arrow(v, p.pos), u);
            let t = fluid::surroundings(ps, i, h, n);
            assert(t.count == s.count + 1);
            assert(((t.count as int) as real) == ((s.count as int) as real) + 1real);
            reals::lemma_sum_times((s.count as int) as real, 1real, c);
            reals::lemma_trivial_factors(c);
        }
    }
}

/// Densities are positive and pressures are not negative; without a gas constant there is no
/// pressure.
proof fn lemma_compressed_is_sound<R: Real>(
    v: spec_fn(R) -> real,
    ps: Seq<FluidParticle<R>>,
    params: FluidParams<R>,
)
    requires
        unrounded(v),
        forall|j: int| 0 <= j < ps.len() ==> v((#[trigger] ps[j]).mass) >= 0real,
    ensures
        sound(v, fluid::all_compressed(ps, params)),
        v(params.gas_constant) == 0real ==> forall|j: int|
            0 <= j < ps.len() ==> v(
                (#[trigger] fluid::all_compressed(ps, params)[j]).pressure,
            ) == 0real,
{
    reals::lemma_decimal_positive(v, 1, 9);
    let dense = fluid::all_compressed(ps, params);
    assert forall|j: int| 0 <= j < ps.len() && v(params.gas_constant) == 0real implies v(
        (#[trigger] dense[j]).pressure,
    ) == 0real by {
        reals::lemma_trivial_factors(v(dense[j].density.sub(params.rest_density)));
    }
}

/// How an acceleration leans.
proof fn lemma_acceleration_leans<R: Real>(
    v: spec_fn(R) -> real,
    p: FluidParticle<R>,
    s: Surroundings<R>,
    params: FluidParams<R>,
    u: Arrow,
)
    requires
        unrounded(v),
    ensures
        ({
            let a = arrow(v, fluid::acceleration(p, s, params)).minus(
                arrow(v, params.gravity),
            ).inner(u);
            let b = arrow(v, s.viscosity).inner(u) * v(params.viscosity) - arrow(
                v,
                s.pressure,
            ).inner(u);
            let n = (s.count as int) as real;
            &&& v(params.surface_tension) <= 0real || s.count == 0 ==> a == b
            &&& v(params.surface_tension) > 0real && s.count > 0 ==> (a - b) * n == (arrow(
                v,
                s.positions,
            ).inner(u) - arrow(v, p.pos).inner(u) * n) * v(params.surface_tension)
        }),
{
    let g = params.gravity;
    let x = s.pressure.neg();
    let y = s.viscosity.scale(params.viscosity);
    reals::lemma_vectors(v, s.pressure, s.pressure, params.viscosity);
    reals::lemma_vectors(v, s.viscosity, s.viscosity, params.viscosity);
    reals::lemma_vectors(v, x, y, params.viscosity);
    reals::lemma_vectors(v, x.add(y), g, params.viscosity);
    reals::lemma_inner_plus(arrow(v, x), arrow(v, y), u);
    reals::lemma_inner_plus(arrow(v, x.add(y)), arrow(v, g), u);
    reals::lemma_inner_times(arrow(v, s.pressure), -1real, u);
    reals::lemma_trivial_factors(arrow(v, s.pressure).inner(u));
    reals::lemma_inner_times(arrow(v, s.viscosity), v(params.viscosity), u);
    let before = x.add(y).add(g);
    reals::lemma_inner_plus(arrow(v, before), arrow(v, g), u);
    if v(params.surface_tension) > 0real && s.count > 0 {
        let count = R::from_usize(s.count);
        let n = (s.count as int) as real;
        assert(v(count) == n);
        let middle = s.positions.div(count);
        reals::lemma_vectors(v, s.positions, s.positions, count);
        reals::lemma_vectors(v, middle, p.pos, count);
        let pull = middle.sub(p.pos);
        reals::lemma_vectors(v, pull, pull, params.surface_tension);
        let t = pull.scale(params.surface_tension);
        reals::lemma_vectors(v, before, t, count);
        reals::lemma_inner_plus(arrow(v, before), arrow(v, t), u);
        reals::lemma_inner_plus(arrow(v, before.add(t)), arrow(v, g), u);
        reals::lemma_inner_times(arrow(v, pull), v(params.surface_tension), u);
        reals::lemma_inner_plus(arrow(v, middle), arrow(v, p.pos), u);
        reals::lemma_inner_times(arrow(v, middle), n, u);
        let (mid, own) = (arrow(v, middle).inner(u), arrow(v, p.pos).inner(u));
        reals::lemma_sum_times(mid, own, n);
        reals::lemma_factors(mid - own, v(params.surface_tension), n);
    }
}

/// Viscosity evens velocities out: where no velocity nearby lags behind the own one in some
/// direction, a particle is not slowed in that direction beyond gravity, and it is sped up where
/// one of them leads. This is stated without pressure and surface tension.
pub proof fn lemma_viscosity_evens_velocities_out<R: Real>(
    v: spec_fn(R) -> real,
    ps: Seq<FluidParticle<R>>,
    params: FluidParams<R>,
    dt: R,
    i: int,
    u: Arrow,
    m: int,
)
    requires
        unrounded(v),
        0 <= i < ps.len(),
        forall|j: int| 0 <= j < ps.len() ==> v((#[trigger] ps[j]).mass) >= 0real,
        v(params.smoothing_radius) > 0real,
        v(params.viscosity) >= 0real,
        v(params.gas_constant) == 0real,
        v(params.surface_tension) <= 0real,
        forall|j: int|
            0 <= j < ps.len() && j != i && near(v, ps[i], #[trigger] ps[j], params.smoothing_radius)
                ==> arrow(v, ps[j].vel).minus(arrow(v, ps[i].vel)).inner(u) >= 0real,
    ensures
        arrow(v, fluid::stepped(ps, params, dt)[i].accel).minus(arrow(v, params.gravity)).inner(u)
            >= 0real,
        0 <= m < ps.len() && m != i && near(v, ps[i], ps[m], params.smoothing_radius) && v(
            ps[m].mass,
        ) > 0real && v(params.viscosity) > 0real && arrow(v, ps[m].vel).minus(
            arrow(v, ps[i].vel),
        ).inner(u) > 0real ==> arrow(v, fluid::stepped(ps, params, dt)[i].accel).minus(
            arrow(v, params.gravity),
        ).inner(u) > 0real,
{
    let dense = fluid::all_compressed(ps, params);
    let h = params.smoothing_radius;
    lemma_compressed_is_sound(v, ps, params);
    let s = fluid::surroundings(dense, i, h, ps.len());
    lemma_acceleration_leans(v, dense[i], s, params, u);
    assert forall|j: int|
        0 <= j < ps.len() && j != i && near(v, dense[i], #[trigger] dense[j], h) implies arrow(
        v,
        dense[j].vel,
    ).minus(arrow(v, dense[i].vel)).inner(u) >= 0real by {
        assert(near(v, ps[i], ps[j], h));
    }
    lemma_viscosity_leans(v, dense, i, h, ps.len(), u, m);
    lemma_pressure_leans(v, dense, i, h, ps.len(), u, m);
    let w = arrow(v, s.viscosity).inner(u);
    reals::lemma_product_sign(w, v(params.viscosity));
}

/// One neighbour drags a particle along: with nothing else near, the acceleration beyond gravity
/// points to the velocity of the neighbour relative to the own one.
pub proof fn lemma_neighbour_drags<R: Real>(
    v: spec_fn(R) -> real,
    ps: Seq<FluidParticle<R>>,
    params: FluidParams<R>,
    dt: R,
    i: int,
    j: int,
)
    requires
        unrounded(v),
        0 <= i < ps.len(),
        0 <= j < ps.len(),
        i != j,
        forall|k: int| 0 <= k < ps.len() ==> v((#[trigger] ps[k]).mass) >= 0real,
        v(params.smoothing_radius) > 0real,
        v(params.viscosity) >= 0real,
        v(params.gas_constant) == 0real,
        v(params.surface_tension) <= 0real,
        forall|k: int|
            0 <= k < ps.len() && k != i && k != j ==> !near(
                v,
                ps[i],
                #[trigger] ps[k],
                params.smoothing_radius,
            ),
    ensures
        ({
            let a = arrow(v, fluid::stepped(ps, params, dt)[i].accel).minus(
                arrow(v, params.gravity),
            );
            let d = arrow(v, ps[j].vel).minus(arrow(v, ps[i].vel));
            &&& a.inner(d) >= 0real
            &&& near(v, ps[i], ps[j], params.smoothing_radius) && v(ps[j].mass) > 0real && v(
                params.viscosity,
            ) > 0real && d != Arrow::none() ==> a.inner(d) > 0real
        }),
{
    let d = arrow(v, ps[j].vel).minus(arrow(v, ps[i].vel));
    reals::lemma_square(d);
    lemma_viscosity_evens_velocities_out(v, ps, params, dt, i, d, j);
}

/// Pressure pushes particles apart: where all particles nearby are on one side, a particle is
/// pushed to the other side. This is stated without viscosity and surface tension.
pub proof fn lemma_pressure_pushes_apart<R: Real>(
    v: spec_fn(R) -> real,
    ps: Seq<FluidParticle<R>>,
    params: FluidParams<R>,
    dt: R,
    i: int,
    u: Arrow,
    m: int,
)
    requires
        unrounded(v),
        0 <= i < ps.len(),
        forall|j: int| 0 <= j < ps.len() ==> v((#[trigger] ps[j]).mass) >= 0real,
        v(params.smoothing_radius) > 0real,
        v(params.viscosity) == 0real,
        v(params.surface_tension) <= 0real,
        forall|j: int|
            0 <= j < ps.len() && j != i && near(v, ps[i], #[trigger] ps[j], params.smoothing_radius)
                ==> apart(v, ps[i], ps[j]).inner(u) >= 0real,
    ensures
        arrow(v, fluid::stepped(ps, params, dt)[i].accel).minus(arrow(v, params.gravity)).inner(u)
            >= 0real,
        0 <= m < ps.len() && m != i && near(v, ps[i], ps[m], params.smoothing_radius) && v(
            ps[m].mass,
        ) > 0real && apart(v, ps[i], ps[m]).inner(u) > 0real && (v(
            fluid::stepped(ps, params, dt)[i].pressure,
        ) > 0real || v(fluid::stepped(ps, params, dt)[m].pressure) > 0real) ==> arrow(
            v,
            fluid::stepped(ps, params, dt)[i].accel,
        ).minus(arrow(v, params.gravity)).inner(u) > 0real,
{
    let dense = fluid::all_compressed(ps, params);
    let h = params.smoothing_radius;
    lemma_compressed_is_sound(v, ps, params);
    let s = fluid::surroundings(dense, i, h, ps.len());
    lemma_acceleration_leans(v, dense[i], s, params, u);
    assert forall|j: int|
        0 <= j < ps.len() && j != i && near(v, dense[i], #[trigger] dense[j], h) implies apart(
        v,
        dense[i],
        dense[j],
    ).inner(u) >= 0real by {
        assert(near(v, ps[i], ps[j], h));
    }
    lemma_pressure_leans(v, dense, i, h, ps.len(), u, m);
    reals::lemma_trivial_factors(arrow(v, s.viscosity).inner(u));
}

/// Surface tension pulls particles together: where all particles nearby are on one side, a
/// particle is pulled to that side. This is stated without pressure and viscosity.
pub proof fn lemma_surface_pulls_together<R: Real>(
    v: spec_fn(R) -> real,
    ps: Seq<FluidParticle<R>>,
    params: FluidParams<R>,
    dt: R,
    i: int,
    u: Arrow,
    m: int,
)
    requires
        unrounded(v),
        0 <= i < ps.len() <= usize::MAX,
        forall|j: int| 0 <= j < ps.len() ==> v((#[trigger] ps[j]).mass) >= 0real,
        v(params.smoothing_radius) > 0real,
        v(params.viscosity) == 0real,
        v(params.gas_constant) == 0real,
        v(params.surface_tension) > 0real,
        forall|j: int|
            0 <= j < ps.len() && j != i && near(v, ps[i], #[trigger] ps[j], params.smoothing_radius)
                ==> apart(v, ps[j], ps[i]).inner(u) >= 0real,
    ensures
        arrow(v, fluid::stepped(ps, params, dt)[i].accel).minus(arrow(v, params.gravity)).inner(u)
            >= 0real,
        0 <= m < ps.len() && m != i && near(v, ps[i], ps[m], params.smoothing_radius) && apart(
            v,
            ps[m],
            ps[i],
        ).inner(u) > 0real ==> arrow(v, fluid::stepped(ps, params, dt)[i].accel).minus(
            arrow(v, params.gravity),
        ).inner(u) > 0real,
{
    let dense = fluid::all_compressed(ps, params);
    let h = params.smoothing_radius;
    lemma_compressed_is_sound(v, ps, params);
    let s = fluid::surroundings(dense, i, h, ps.len());
    lemma_acceleration_leans(v, dense[i], s, params, u);
    assert forall|j: int|
        0 <= j < ps.len() && j != i && near(v, dense[i], #[trigger] dense[j], h) implies apart(
        v,
        dense[j],
        dense[i],
    ).inner(u) >= 0real by {
        assert(near(v, ps[i], ps[j], h));
    }
    lemma_positions_lean(v, dense, i, h, ps.len(), u, m);
    lemma_no_pressure(v, dense, i, h, ps.len());
    let a = arrow(v, fluid::stepped(ps, params, dt)[i].accel).minus(arrow(v, params.gravity)).inner(
        u,
    );
    reals::lemma_trivial_factors(arrow(v, s.viscosity).inner(u));
    reals::lemma_trivial_factors(u.x);
    reals::lemma_trivial_factors(u.y);
    reals::lemma_trivial_factors(u.z);
    if s.count > 0 {
        let n = (s.count as int) as real;
        let x = arrow(v, s.positions).inner(u) - arrow(v, dense[i].pos).inner(u) * n;
        reals::lemma_product_sign(x, v(params.surface_tension));
        lemma_share_sign(a, n, x * v(params.surface_tension));
    }
}

proof fn lemma_share_sign(a: real, n: real, y: real)
    requires
        n > 0real,
        a * n == y,
        y >= 0real,
    ensures
        a >= 0real,
        y > 0real ==> a > 0real,
{
    if a < 0real {
        reals::lemma_product_sign(-a, n);
        reals::lemma_negative(a, n);
    }
    reals::lemma_trivial_factors(n);
}

/// Without pressure there are no pressure terms.
proof fn lemma_no_pressure<R: Real>(
    v: spec_fn(R) -> real,
    ps: Seq<FluidParticle<R>>,
    i: int,
    h: R,
    n: nat,
)
    requires
        unrounded(v),
        v(h) > 0real,
        0 <= i < ps.len(),
        n <= ps.len(),
        sound(v, ps),
        forall|j: int| 0 <= j < ps.len() ==> v((#[trigger] ps[j]).pressure) == 0real,
    ensures
        arrow(v, fluid::surroundings(ps, i, h, n).pressure) == Arrow::none(),
    decreases n,
{
    reals::lemma_vectors(v, ps[i].pos, ps[i].pos, h);
    if n > 0 {
        lemma_no_pressure(v, ps, i, h, (n - 1) as nat);
        let (p, q) = (ps[i], ps[n - 1]);
        let s = fluid::surroundings(ps, i, h, (n - 1) as nat);
        lemma_pressure_added(v, s, p, q, h);
        lemma_shared(v, p, q);
        let d = apart(v, p, q).times(-steepness(v, v(p.pos.sub(q.pos).length()), h));
        reals::lemma_trivial_factors(v(q.mass));
        reals::lemma_trivial_factors(d.x);
        reals::lemma_trivial_factors(d.y);
        reals::lemma_trivial_factors(d.z);
    }
}

/// A step is semi-implicit: the velocity changes by the acceleration over the time, and the
/// position by the new velocity over the time.
pub proof fn lemma_step_follows_acceleration<R: Real>(
    v: spec_fn(R) -> real,
    ps: Seq<FluidParticle<R>>,
    params: FluidParams<R>,
    dt: R,
    i: int,
)
    requires
        unrounded(v),
        0 <= i < ps.len(),
    ensures
        ({
            let (p, q) = (ps[i], fluid::stepped(ps, params, dt)[i]);
            &&& arrow(v, q.vel).minus(arrow(v, p.vel)) == arrow(v, q.accel).times(v(dt))
            &&& arrow(v, q.pos).minus(arrow(v, p.pos)) == arrow(v, q.vel).times(v(dt))
        }),
{
    let (p, q) = (ps[i], fluid::stepped(ps, params, dt)[i]);
    reals::lemma_vectors(v, q.accel, q.accel, dt);
    reals::lemma_vectors(v, p.vel, q.accel.scale(dt), dt);
    reals::lemma_vectors(v, q.vel, q.vel, dt);
    reals::lemma_vectors(v, p.pos, q.vel.scale(dt), dt);
}

/// A particle more adds its mass times the weight of its distance to the density of every one
/// within the radius, and nothing to the others; one alone has its own mass times the weight of no
/// distance.
pub proof fn lemma_densities_add_up<R: Real>(
    v: spec_fn(R) -> real,
    ps: Seq<FluidParticle<R>>,
    q: FluidParticle<R>,
    i: int,
    h: R,
    d: R,
)
    requires
        unrounded(v),
        0 <= i < ps.len(),
        v(h) > 0real,
        v(d) >= 0real,
        v(d) * v(d) == apart(v, ps[i], q).square(),
    ensures
        v(fluid::density_sum(ps.push(q), i, h, ps.len() + 1)) == v(
            fluid::density_sum(ps, i, h, ps.len()),
        ) + v(q.mass) * v(fluid::poly6(d, h)),
        ps.len() == 1 ==> v(fluid::density_sum(ps, i, h, ps.len())) == v(ps[i].mass) * v(
            fluid::poly6(R::zero(), h),
        ),
{
    let qs = ps.push(q);
    lemma_density_of_the_first(ps, q, i, h, ps.len());
    reals::lemma_vectors(v, ps[i].pos, q.pos, h);
    let r = ps[i].pos.sub(q.pos);
    reals::lemma_vectors(v, r, r, h);
    let e = r.length_squared().sqrt();
    reals::lemma_square(arrow(v, r));
    reals::lemma_same_square(v(e), v(d));
    lemma_density_kernel(v, d, e, h);
    lemma_density_kernel(v, e, d, h);
    reals::lemma_trivial_factors(v(q.mass));
    if v(d) >= v(h) {
        reals::lemma_product_sign(v(d) - v(h), v(h));
        reals::lemma_product_sign(v(d) - v(h), v(d));
        reals::lemma_sum_times(v(d), v(h), v(h));
        reals::lemma_sum_times(v(d), v(h), v(d));
    } else {
        lemma_shorter_or_equal(v(d), v(h));
    }
    reals::lemma_sum_times(v(ps[i].mass), 0real, v(fluid::poly6(R::zero(), h)));
    if ps.len() == 1 {
        reveal_with_fuel(fluid::density_sum, 2);
    }
}

proof fn lemma_density_of_the_first<R: Real>(
    ps: Seq<FluidParticle<R>>,
    q: FluidParticle<R>,
    i: int,
    h: R,
    n: nat,
)
    requires
        0 <= i < ps.len(),
        n <= ps.len(),
    ensures
        fluid::density_sum(ps.push(q), i, h, n) == fluid::density_sum(ps, i, h, n),
    decreases n,
{
    if n > 0 {
        lemma_density_of_the_first(ps, q, i, h, (n - 1) as nat);
    }
}

/// A particle has pressure where its density is above the rest density, in proportion to the
/// excess, and none elsewhere.
pub proof fn lemma_pressure_of_density<R: Real>(
    v: spec_fn(R) -> real,
    ps: Seq<FluidParticle<R>>,
    params: FluidParams<R>,
    dt: R,
    i: int,
)
    requires
        unrounded(v),
        0 <= i < ps.len(),
        v(params.gas_constant) >= 0real,
    ensures
        ({
            let q = fluid::stepped(ps, params, dt)[i];
            let excess = v(q.density) - v(params.rest_density);
            &&& excess >= 0real ==> v(q.pressure) == v(params.gas_constant) * excess
            &&& excess <= 0real ==> v(q.pressure) == 0real
            &&& v(fluid::density_sum(ps, i, params.smoothing_radius, ps.len())) >= v(
                R::decimal(1, 9),
            ) ==> v(q.density) == v(
                fluid::density_sum(ps, i, params.smoothing_radius, ps.len()),
            )
        }),
{
    let q = fluid::stepped(ps, params, dt)[i];
    let excess = v(q.density) - v(params.rest_density);
    let k = v(params.gas_constant);
    if excess >= 0real {
        reals::lemma_product_sign(k, excess);
    } else {
        reals::lemma_product_sign(k, -excess);
        reals::lemma_negative(k, excess);
    }
    reals::lemma_trivial_factors(k);
}

} // verus!
