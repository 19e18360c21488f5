//! What the forces between grains are for, where arithmetic does not round.
use vstd::prelude::*;
use crate::dynamics::granular;
use crate::dynamics::granular::{GranularParams, GranularParticle};
use crate::math::Vector;
use crate::reals;
use crate::reals::{arrow, unrounded, Arrow};
use crate::scalar::Real;
use crate::spatial_hash;

verus! {

/// The parts of a contact force as real numbers.
ghost struct Contact {
    /// The distance.
    d: real,
    /// The direction from the second grain to the first.
    n: Arrow,
    /// The velocity at which they part.
    vn: real,
    /// The push.
    push: real,
    /// The slide of the first grain along the second.
    slide: Arrow,
    /// The speed of the slide.
    vt: real,
    /// The share of the slide that the rub is.
    g: real,
}

/// The arrow from the second grain to the first.
pub open spec fn apart<R: Real>(
    v: spec_fn(R) -> real,
    p: GranularParticle<R>,
    q: GranularParticle<R>,
) -> Arrow {
    arrow(v, p.pos).minus(arrow(v, q.pos))
}

/// The velocity of the first grain as the second one sees it.
pub open spec fn relative<R: Real>(
    v: spec_fn(R) -> real,
    p: GranularParticle<R>,
    q: GranularParticle<R>,
) -> Arrow {
    arrow(v, p.vel).minus(arrow(v, q.vel))
}

spec fn least(v: real, w: real) -> real {
    if v <= w {
        v
    } else {
        w
    }
}

spec fn not_negative(x: real) -> real {
    if x < 0real {
        0real
    } else {
        x
    }
}

spec fn parts_of<R: Real>(
    v: spec_fn(R) -> real,
    p: GranularParticle<R>,
    q: GranularParticle<R>,
    params: GranularParams<R>,
    c: Contact,
) -> bool {
    let r = apart(v, p, q);
    let u = relative(v, p, q);
    let floor = v(R::decimal(1, 18));
    let sum = v(p.radius) + v(q.radius);
    &&& c.d > 0real
    &&& c.d * c.d == (if r.square() <= floor { floor } else { r.square() })
    &&& c.n.times(c.d) == r
    &&& c.vn == u.inner(c.n)
    &&& c.push == not_negative(
        v(params.normal_stiffness) * (sum - c.d) - v(params.normal_damping) * c.vn,
    )
    &&& c.slide == u.minus(c.n.times(c.vn))
    &&& c.vt >= 0real
    &&& c.vt * c.vt == c.slide.square()
    &&& v(R::decimal(1, 12)) < c.vt ==> c.g * c.vt == least(
        v(params.tangential_damping) * c.vt,
        v(params.friction) * c.push,
    )
    &&& c.vt <= v(R::decimal(1, 12)) ==> c.g == 0real
}

/// A contact force is a push along the line between the grains, less a share of the slide.
proof fn lemma_contact_parts<R: Real>(
    v: spec_fn(R) -> real,
    p: GranularParticle<R>,
    q: GranularParticle<R>,
    params: GranularParams<R>,
) -> (c: Contact)
    requires
        unrounded(v),
    ensures
        parts_of(v, p, q, params, c),
        arrow(v, granular::contact_force(p, q, params)) == c.n.times(c.push).minus(
            c.slide.times(c.g),
        ),
{
    let rij = p.pos.sub(q.pos);
    let square = rij.length_squared().max(R::decimal(1, 18));
    let d = square.sqrt();
    reals::lemma_decimal_positive(v, 1, 18);
    reals::lemma_decimal_positive(v, 1, 12);
    reals::lemma_vectors(v, p.pos, q.pos, d);
    reals::lemma_vectors(v, rij, rij, d);
    let dd = v(d);
    reals::lemma_trivial_factors(dd);
    assert(dd > 0real);
    let n_hat = rij.div(d);
    let n = arrow(v, n_hat);
    let vij = p.vel.sub(q.vel);
    reals::lemma_vectors(v, p.vel, q.vel, d);
    reals::lemma_vectors(v, vij, n_hat, d);
    let v_n = vij.dot(n_hat);
    let vn = v(v_n);
    let pushed = params.normal_stiffness.mul(p.radius.add(q.radius).sub(d)).sub(
        params.normal_damping.mul(v_n),
    ).max(R::zero());
    let push = v(pushed);
    let slid = vij.sub(n_hat.scale(v_n));
    reals::lemma_vectors(v, n_hat, n_hat, v_n);
    reals::lemma_vectors(v, vij, n_hat.scale(v_n), v_n);
    let slide = arrow(v, slid);
    let v_t = slid.length();
    reals::lemma_vectors(v, slid, slid, v_t);
    let vt = v(v_t);
    let f = granular::contact_force(p, q, params);
    reals::lemma_vectors(v, n_hat, n_hat, pushed);
    if v(R::decimal(1, 12)) < vt {
        let m = params.tangential_damping.mul(v_t).min(params.friction.mul(pushed));
        let rub = slid.div(v_t).neg().scale(m);
        reals::lemma_vectors(v, slid.div(v_t), slid, m);
        reals::lemma_vectors(v, slid.div(v_t).neg(), slid, m);
        reals::lemma_vectors(v, n_hat.scale(pushed), rub, m);
        let g = v(m) / vt;
        reals::lemma_quotient(v(m), vt);
        let e = arrow(v, slid.div(v_t));
        assert(e.times(vt) == slide);
        lemma_rub(e.x, vt, v(m), g, slide.x);
        lemma_rub(e.y, vt, v(m), g, slide.y);
        lemma_rub(e.z, vt, v(m), g, slide.z);
        assert(arrow(v, rub) == Arrow::none().minus(slide.times(g)));
        assert(f == n_hat.scale(pushed).add(rub));
        Contact { d: dd, n, vn, push, slide, vt, g }
    } else {
        let none = Vector::<R>::spec_zero();
        reals::lemma_vectors(v, n_hat.scale(pushed), none, v_t);
        assert(f == n_hat.scale(pushed).add(none));
        reals::lemma_trivial_factors(slide.x);
        reals::lemma_trivial_factors(slide.y);
        reals::lemma_trivial_factors(slide.z);
        assert(slide.times(0real) == Arrow::none());
        Contact { d: dd, n, vn, push, slide, vt, g: 0real }
    }
}

/// One coordinate of a rub.
proof fn lemma_rub(e: real, vt: real, m: real, g: real, s: real)
    requires
        e * vt == s,
        g * vt == m,
    ensures
        (e * (-1real)) * m == 0real - s * g,
{
    reals::lemma_negative(e, 1real);
    reals::lemma_trivial_factors(e);
    reals::lemma_negative(e, m);
    reals::lemma_factors(e, g, vt);
    reals::lemma_factors(e, vt, g);
}

proof fn lemma_turned_round(a: Arrow, b: Arrow, s: real)
    requires
        b == a.times(-1real),
    ensures
        b.times(s) == a.times(s).times(-1real),
        b.square() == a.square(),
{
    reals::lemma_factors(a.x, -1real, s);
    reals::lemma_factors(a.y, -1real, s);
    reals::lemma_factors(a.z, -1real, s);
    reals::lemma_inner_times(a, -1real, b);
    reals::lemma_inner_times(a, -1real, a);
}

/// Contact forces are mutual: exchanging the two grains turns the force round.
pub proof fn lemma_contact_force_is_mutual<R: Real>(
    v: spec_fn(R) -> real,
    p: GranularParticle<R>,
    q: GranularParticle<R>,
    params: GranularParams<R>,
)
    requires
        unrounded(v),
    ensures
        arrow(v, granular::contact_force(q, p, params)) == arrow(
            v,
            granular::contact_force(p, q, params),
        ).times(-1real),
{
    let a = lemma_contact_parts(v, p, q, params);
    let b = lemma_contact_parts(v, q, p, params);
    let (r, u) = (apart(v, p, q), relative(v, p, q));
    assert(apart(v, q, p) == r.times(-1real));
    assert(relative(v, q, p) == u.times(-1real));
    lemma_turned_round(r, apart(v, q, p), 1real);
    reals::lemma_same_square(a.d, b.d);
    assert(b.n == a.n.times(-1real)) by {
        lemma_same_factor(b.n.x, a.n.x, a.d);
        lemma_same_factor(b.n.y, a.n.y, a.d);
        lemma_same_factor(b.n.z, a.n.z, a.d);
    }
    reals::lemma_inner_times(u, -1real, b.n);
    reals::lemma_inner_times(a.n, -1real, u);
    assert(b.vn == a.vn);
    assert(b.push == a.push);
    lemma_turned_round(a.n, b.n, a.vn);
    lemma_turned_round(a.n, b.n, a.push);
    assert(b.slide == a.slide.times(-1real));
    lemma_turned_round(a.slide, b.slide, a.g);
    reals::lemma_same_square(a.vt, b.vt);
    if v(R::decimal(1, 12)) < a.vt {
        reals::lemma_decimal_positive(v, 1, 12);
        reals::lemma_cancel(a.g, b.g, a.vt);
    }
}

proof fn lemma_same_factor(b: real, a: real, d: real)
    requires
        b * d == (a * d) * (-1real),
        d > 0real,
    ensures
        b == a * (-1real),
{
    reals::lemma_factors(a, d, -1real);
    reals::lemma_factors(a, -1real, d);
    reals::lemma_cancel(b, a * (-1real), d);
}

/// The direction has length one, and the slide is across it.
proof fn lemma_unit_direction(n: Arrow, r: Arrow, d: real)
    requires
        d > 0real,
        n.times(d) == r,
        d * d == r.square(),
    ensures
        n.square() == 1real,
{
    reals::lemma_inner_times(n, d, r);
    reals::lemma_inner_times(n, d, n);
    let nn = n.square();
    reals::lemma_factors(nn, d, d);
    reals::lemma_product_sign(d, d);
    reals::lemma_trivial_factors(d * d);
    reals::lemma_cancel(nn, 1real, d * d);
}

proof fn lemma_slide_across(n: Arrow, u: Arrow, s: Arrow, vn: real)
    requires
        n.square() == 1real,
        vn == u.inner(n),
        s == u.minus(n.times(vn)),
    ensures
        s.inner(n) == 0real,
        s.inner(u) == s.square(),
{
    reals::lemma_inner_plus(u, n.times(vn), n);
    reals::lemma_inner_times(n, vn, n);
    reals::lemma_trivial_factors(vn);
    reals::lemma_inner_plus(u, n.times(vn), s);
    reals::lemma_inner_times(n, vn, s);
    reals::lemma_inner_times(s, 1real, u);
}

proof fn lemma_along(f: Arrow, n: Arrow, s: Arrow, r: Arrow, d: real, push: real, g: real)
    requires
        n.times(d) == r,
        n.square() == 1real,
        s.inner(n) == 0real,
        f == n.times(push).minus(s.times(g)),
    ensures
        f.inner(r) == push * d,
        s.inner(r) == 0real,
{
    reals::lemma_inner_times(n, d, f);
    reals::lemma_inner_times(n, d, s);
    reals::lemma_inner_plus(n.times(push), s.times(g), n);
    reals::lemma_inner_times(n, push, n);
    reals::lemma_inner_times(s, g, n);
    reals::lemma_trivial_factors(g);
    reals::lemma_trivial_factors(push);
    reals::lemma_trivial_factors(d);
    reals::lemma_inner_times(f, 1real, n);
    reals::lemma_inner_times(f, 1real, r);
}

proof fn lemma_spring_part(d: real, k: real, o: real, h: real, vn: real, push: real)
    requires
        d > 0real,
        push == not_negative(k * o - h * vn),
    ensures
        push * d >= 0real,
        d * (k * o) - h * (vn * d) >= 0real ==> push * d == d * (k * o) - h * (vn * d),
        d * (k * o) - h * (vn * d) < 0real ==> push * d == 0real,
{
    reals::lemma_sum_times(k * o, h * vn, d);
    reals::lemma_factors(h, vn, d);
    let x = k * o - h * vn;
    reals::lemma_product_sign(push, d);
    reals::lemma_trivial_factors(d);
    if x >= 0real {
        reals::lemma_product_sign(x, d);
    } else {
        reals::lemma_product_sign(-x, d);
        reals::lemma_negative(x, d);
    }
}

proof fn lemma_rub_part(s: Arrow, u: Arrow, r: Arrow, t: real, g: real, dd: real)
    requires
        s.inner(u) == s.square(),
        s.inner(r) == 0real,
        s.square() == t * t,
        g >= 0real,
        dd >= 0real,
    ensures
        s.times(-(g * dd)).inner(r) == 0real,
        s.times(-(g * dd)).inner(u) <= 0real,
        s.times(-(g * dd)).square() == ((g * t) * dd) * ((g * t) * dd),
{
    let e = -(g * dd);
    let ss = s.square();
    reals::lemma_inner_times(s, e, r);
    reals::lemma_inner_times(s, e, u);
    reals::lemma_inner_times(s, e, s.times(e));
    reals::lemma_inner_times(s, e, s);
    reals::lemma_trivial_factors(e);
    reals::lemma_square(s);
    reals::lemma_product_sign(g, dd);
    reals::lemma_product_sign(ss, g * dd);
    let y = g * dd;
    reals::lemma_negative(ss, y);
    reals::lemma_negative(-(ss * y), y);
    reals::lemma_negative(ss * y, y);
    reals::lemma_factors(ss, y, y);
    reals::lemma_four_factors(t, t, y, y);
    reals::lemma_factors(g, dd, t);
    reals::lemma_factors(g, t, dd);
    reals::lemma_sum_times(t, t, y);
    assert(((t * t) * (-(g * dd))) * (-(g * dd)) == ((g * t) * dd) * ((g * t) * dd));
}

proof fn lemma_limited(a: real, m: real, dd: real)
    requires
        0real <= a <= m,
        dd >= 0real,
    ensures
        (a * dd) * (a * dd) <= (m * dd) * (m * dd),
{
    let (i, j) = (a * dd, m * dd);
    reals::lemma_product_sign(a, dd);
    reals::lemma_product_sign(m - a, dd);
    reals::lemma_sum_times(m, a, dd);
    reals::lemma_product_sign(j - i, j);
    reals::lemma_product_sign(j - i, i);
    reals::lemma_sum_times(j, i, j);
    reals::lemma_sum_times(j, i, i);
}

/// What a contact force is: its part along the line between the grains is the stiffness times
/// their overlap, the sum of their radii less their distance, less the damping times the velocity
/// at which they part, and never pulls. The rest of it is against their slide, and at most the
/// friction times the push.
pub proof fn lemma_contact_force_pushes_and_rubs<R: Real>(
    v: spec_fn(R) -> real,
    p: GranularParticle<R>,
    q: GranularParticle<R>,
    params: GranularParams<R>,
    d: real,
)
    requires
        unrounded(v),
        d > 0real,
        d * d == apart(v, p, q).square(),
        d * d >= v(R::decimal(1, 18)),
        v(params.tangential_damping) >= 0real,
        v(params.friction) >= 0real,
    ensures
        ({
            let f = arrow(v, granular::contact_force(p, q, params));
            let r = apart(v, p, q);
            let u = relative(v, p, q);
            let overlap = v(p.radius) + v(q.radius) - d;
            let along = f.inner(r);
            let spring = d * (v(params.normal_stiffness) * overlap) - v(params.normal_damping)
                * u.inner(r);
            let rest = f.times(d * d).minus(r.times(along));
            &&& along >= 0real
            &&& spring >= 0real ==> along == spring
            &&& spring < 0real ==> along == 0real
            &&& rest.inner(r) == 0real
            &&& rest.inner(u) <= 0real
            &&& rest.square() <= (v(params.friction) * along * d) * (v(params.friction) * along * d)
            &&& u == Arrow::none() ==> rest == Arrow::none()
        }),
{
    let c = lemma_contact_parts(v, p, q, params);
    reals::lemma_same_square(c.d, d);
    reals::lemma_decimal_positive(v, 1, 12);
    let f = arrow(v, granular::contact_force(p, q, params));
    let r = apart(v, p, q);
    let u = relative(v, p, q);
    let (n, s, push, g, vn, t) = (c.n, c.slide, c.push, c.g, c.vn, c.vt);
    let mu = v(params.friction);
    lemma_unit_direction(n, r, d);
    lemma_slide_across(n, u, s, vn);
    lemma_along(f, n, s, r, d, push, g);
    assert(u.inner(r) == vn * d) by {
        reals::lemma_inner_times(n, d, u);
    }
    lemma_spring_part(
        d,
        v(params.normal_stiffness),
        v(p.radius) + v(q.radius) - d,
        v(params.normal_damping),
        vn,
        push,
    );
    lemma_share(t, g, v(params.tangential_damping), mu, push, v(R::decimal(1, 12)));
    let along = f.inner(r);
    let dd = d * d;
    let rest = f.times(dd).minus(r.times(along));
    assert(rest == s.times(-(g * dd))) by {
        lemma_rest(n.x, s.x, push, g, d, r.x, f.x);
        lemma_rest(n.y, s.y, push, g, d, r.y, f.y);
        lemma_rest(n.z, s.z, push, g, d, r.z, f.z);
    }
    reals::lemma_product_sign(d, d);
    lemma_rub_part(s, u, r, t, g, dd);
    lemma_limited(g * t, mu * push, dd);
    reals::lemma_factors(mu, push * d, d);
    reals::lemma_factors(push, d, d);
    reals::lemma_factors(mu, push, d * d);
    if u == Arrow::none() {
        lemma_no_slide(n, s, -(g * dd));
    }
}

/// Grains that see each other at rest do not rub.
proof fn lemma_no_slide(n: Arrow, s: Arrow, e: real)
    requires
        s == Arrow::none().minus(n.times(Arrow::none().inner(n))),
    ensures
        s.times(e) == Arrow::none(),
{
    reals::lemma_trivial_factors(n.x);
    reals::lemma_trivial_factors(n.y);
    reals::lemma_trivial_factors(n.z);
    assert(s == Arrow::none());
    reals::lemma_trivial_factors(e);
}

/// One coordinate of what is not along the line between the grains.
proof fn lemma_rest(n: real, s: real, push: real, g: real, d: real, r: real, f: real)
    requires
        r == n * d,
        f == n * push - s * g,
    ensures
        f * (d * d) - r * (push * d) == s * (-(g * (d * d))),
{
    reals::lemma_sum_times(n * push, s * g, d * d);
    reals::lemma_four_factors(n, push, d, d);
    reals::lemma_factors(s, g, d * d);
    reals::lemma_negative(s, g * (d * d));
}

/// The share of the slide that is rubbed away.
proof fn lemma_share(vt: real, g: real, damping: real, mu: real, push: real, floor: real)
    requires
        vt >= 0real,
        damping >= 0real,
        mu >= 0real,
        push >= 0real,
        floor > 0real,
        floor < vt ==> g * vt == least(damping * vt, mu * push),
        vt <= floor ==> g == 0real,
    ensures
        g >= 0real,
        0real <= g * vt <= mu * push,
{
    reals::lemma_product_sign(mu, push);
    reals::lemma_product_sign(damping, vt);
    reals::lemma_trivial_factors(vt);
    if g < 0real {
        reals::lemma_product_sign(-g, vt);
        reals::lemma_negative(g, vt);
    }
}

/// Two grains touch where their distance is below the sum of their radii.
pub proof fn lemma_touching_is_overlapping<R: Real>(
    v: spec_fn(R) -> real,
    p: GranularParticle<R>,
    q: GranularParticle<R>,
)
    requires
        unrounded(v),
    ensures
        granular::touching(p, q) <==> apart(v, p, q).square() < (v(p.radius) + v(q.radius)) * (v(
            p.radius,
        ) + v(q.radius)),
        granular::touching(p, q) <==> granular::touching(q, p),
{
    reals::lemma_vectors(v, p.pos, q.pos, p.radius);
    reals::lemma_vectors(v, q.pos, p.pos, p.radius);
    let (a, b) = (p.pos.sub(q.pos), q.pos.sub(p.pos));
    reals::lemma_vectors(v, a, a, p.radius);
    reals::lemma_vectors(v, b, b, p.radius);
    let r = apart(v, p, q);
    reals::lemma_negative(r.x, r.x);
    reals::lemma_negative(r.y, r.y);
    reals::lemma_negative(r.z, r.z);
    reals::lemma_negative(-r.x, r.x);
    reals::lemma_negative(-r.y, r.y);
    reals::lemma_negative(-r.z, r.z);
}

/// The sum of the masses times the accelerations of the first `n` grains.
pub open spec fn total_force<R: Real>(
    v: spec_fn(R) -> real,
    ps: Seq<GranularParticle<R>>,
    accels: Seq<Vector<R>>,
    n: nat,
) -> Arrow
    decreases n,
{
    if n == 0 {
        Arrow::none()
    } else {
        total_force(v, ps, accels, (n - 1) as nat).plus(
            arrow(v, accels[n - 1]).times(v(ps[n - 1].mass)),
        )
    }
}

/// The total force with one acceleration changed.
proof fn lemma_total_changed<R: Real>(
    v: spec_fn(R) -> real,
    ps: Seq<GranularParticle<R>>,
    accels: Seq<Vector<R>>,
    n: nat,
    k: int,
    a: Vector<R>,
)
    requires
        accels.len() == ps.len(),
        n <= ps.len(),
        0 <= k < ps.len(),
    ensures
        total_force(v, ps, accels.update(k, a), n) == (if k < n {
            total_force(v, ps, accels, n).plus(
                arrow(v, a).minus(arrow(v, accels[k])).times(v(ps[k].mass)),
            )
        } else {
            total_force(v, ps, accels, n)
        }),
    decreases n,
{
    if n > 0 {
        lemma_total_changed(v, ps, accels, (n - 1) as nat, k, a);
        if k == n - 1 {
            let (x, y) = (arrow(v, a), arrow(v, accels[k]));
            let m = v(ps[k].mass);
            reals::lemma_sum_times(x.x, y.x, m);
            reals::lemma_sum_times(x.y, y.y, m);
            reals::lemma_sum_times(x.z, y.z, m);
        }
    }
}

/// One contact adds nothing to the total force.
proof fn lemma_contact_keeps_total<R: Real>(
    v: spec_fn(R) -> real,
    accels: Seq<Vector<R>>,
    ps: Seq<GranularParticle<R>>,
    params: GranularParams<R>,
    i: int,
    j: int,
)
    requires
        unrounded(v),
        accels.len() == ps.len(),
        0 <= i < ps.len(),
        0 <= j < ps.len(),
        v(ps[i].mass) != 0real,
        v(ps[j].mass) != 0real,
    ensures
        granular::with_contact(accels, ps, params, i, j).len() == ps.len(),
        total_force(v, ps, granular::with_contact(accels, ps, params, i, j), ps.len())
            == total_force(v, ps, accels, ps.len()),
{
    if granular::acts(ps, i, j) {
        let f = granular::contact_force(ps[i], ps[j], params);
        let (a, b) = (f.div(ps[i].mass), f.div(ps[j].mass));
        let first = accels.update(i, accels[i].add(a));
        let second = first.update(j, first[j].sub(b));
        lemma_total_changed(v, ps, accels, ps.len(), i, accels[i].add(a));
        lemma_total_changed(v, ps, first, ps.len(), j, first[j].sub(b));
        reals::lemma_vectors(v, f, f, ps[i].mass);
        reals::lemma_vectors(v, f, f, ps[j].mass);
        reals::lemma_vectors(v, accels[i], a, ps[i].mass);
        reals::lemma_vectors(v, first[j], b, ps[j].mass);
        let m = v(ps[j].mass);
        let y = arrow(v, b);
        reals::lemma_negative(y.x, m);
        reals::lemma_negative(y.y, m);
        reals::lemma_negative(y.z, m);
        let added = arrow(v, accels[i].add(a)).minus(arrow(v, accels[i]));
        assert(added == arrow(v, a));
        let taken = arrow(v, first[j].sub(b)).minus(arrow(v, first[j]));
        assert(taken == (Arrow { x: -y.x, y: -y.y, z: -y.z }));
    }
}

proof fn lemma_contacts_keep_total<R: Real>(
    v: spec_fn(R) -> real,
    accels: Seq<Vector<R>>,
    ps: Seq<GranularParticle<R>>,
    params: GranularParams<R>,
    i: int,
    js: Seq<usize>,
    n: nat,
)
    requires
        unrounded(v),
        accels.len() == ps.len(),
        0 <= i < ps.len(),
        n <= js.len(),
        forall|k: int| 0 <= k < js.len() ==> (#[trigger] js[k]) < ps.len(),
        forall|k: int| 0 <= k < ps.len() ==> v((#[trigger] ps[k]).mass) != 0real,
    ensures
        granular::with_contacts(accels, ps, params, i, js, n).len() == ps.len(),
        total_force(v, ps, granular::with_contacts(accels, ps, params, i, js, n), ps.len())
            == total_force(v, ps, accels, ps.len()),
    decreases n,
{
    if n > 0 {
        lemma_contacts_keep_total(v, accels, ps, params, i, js, (n - 1) as nat);
        let before = granular::with_contacts(accels, ps, params, i, js, (n - 1) as nat);
        lemma_contact_keeps_total(v, before, ps, params, i, js[n - 1] as int);
    }
}

proof fn lemma_no_total<R: Real>(
    v: spec_fn(R) -> real,
    ps: Seq<GranularParticle<R>>,
    params: GranularParams<R>,
    n: nat,
)
    requires
        unrounded(v),
        n <= ps.len(),
    ensures
        total_force(v, ps, granular::contact_accels(ps, params, 0), n) == Arrow::none(),
    decreases n,
{
    if n > 0 {
        lemma_no_total(v, ps, params, (n - 1) as nat);
        reals::lemma_vectors(v, ps[0].pos, ps[0].pos, ps[0].mass);
        reals::lemma_trivial_factors(v(ps[n - 1].mass));
    }
}

/// Contacts keep momentum: the accelerations that they give, each times the mass of its grain, sum
/// up to nothing.
pub proof fn lemma_contacts_keep_momentum<R: Real>(
    v: spec_fn(R) -> real,
    ps: Seq<GranularParticle<R>>,
    params: GranularParams<R>,
    n: nat,
)
    requires
        unrounded(v),
        n <= ps.len() <= usize::MAX,
        forall|k: int| 0 <= k < ps.len() ==> v((#[trigger] ps[k]).mass) != 0real,
    ensures
        granular::contact_accels(ps, params, n).len() == ps.len(),
        total_force(v, ps, granular::contact_accels(ps, params, n), ps.len()) == Arrow::none(),
    decreases n,
{
    if n == 0 {
        lemma_no_total(v, ps, params, ps.len());
    } else {
        lemma_contacts_keep_momentum(v, ps, params, (n - 1) as nat);
        let size = granular::cell_size(ps);
        granular::lemma_grains_below(ps, size);
        spatial_hash::lemma_around_below(
            granular::grain_cells(ps, size, ps.len()),
            spatial_hash::cell_of(ps[n - 1].pos, size),
            ps.len(),
        );
        let js = granular::candidates(ps, n - 1);
        let before = granular::contact_accels(ps, params, (n - 1) as nat);
        lemma_contacts_keep_total(v, before, ps, params, n - 1, js, js.len());
    }
}

/// Two grains that touch get the contact force as acceleration beyond gravity, each over its mass
/// and in opposite directions, where each finds the other around it.
pub proof fn lemma_pair_in_contact<R: Real>(
    v: spec_fn(R) -> real,
    ps: Seq<GranularParticle<R>>,
    params: GranularParams<R>,
    dt: R,
)
    requires
        unrounded(v),
        ps.len() == 2,
        v(ps[0].mass) != 0real,
        v(ps[1].mass) != 0real,
        granular::touching(ps[0], ps[1]),
        granular::candidates(ps, 0).contains(1),
    ensures
        ({
            let f = arrow(v, granular::contact_force(ps[0], ps[1], params));
            let g = arrow(v, params.gravity);
            let (a, b) = (
                arrow(v, granular::stepped(ps, params, dt)[0].accel),
                arrow(v, granular::stepped(ps, params, dt)[1].accel),
            );
            &&& a.minus(g).times(v(ps[0].mass)) == f
            &&& b.minus(g).times(v(ps[1].mass)) == f.times(-1real)
        }),
{
    let f = granular::contact_force(ps[0], ps[1], params);
    let none = granular::contact_accels(ps, params, 0);
    let size = granular::cell_size(ps);
    let entries = granular::grain_cells(ps, size, ps.len());
    granular::lemma_grains_below(ps, size);
    let (js, ks) = (granular::candidates(ps, 0), granular::candidates(ps, 1));
    spatial_hash::lemma_around_is_distinct(entries, spatial_hash::cell_of(ps[0].pos, size));
    spatial_hash::lemma_around_below(entries, spatial_hash::cell_of(ps[0].pos, size), 2);
    spatial_hash::lemma_around_below(entries, spatial_hash::cell_of(ps[1].pos, size), 2);
    let at = choose|k: int| 0 <= k < js.len() && js[k] == 1;
    assert(js[at] == 1);
    let z = Vector::<R>::spec_zero();
    let (a, b) = (z.add(f.div(ps[0].mass)), z.sub(f.div(ps[1].mass)));
    lemma_only_contact(none, ps, params, js, js.len(), at);
    let first = granular::with_contacts(none, ps, params, 0, js, js.len());
    assert(first =~= granular::contact_accels(ps, params, 1)) by {
        reveal_with_fuel(granular::contact_accels, 2);
    }
    lemma_nothing_more(first, ps, params, ks, ks.len());
    let second = granular::with_contacts(first, ps, params, 1, ks, ks.len());
    assert(second =~= granular::contact_accels(ps, params, 2)) by {
        reveal_with_fuel(granular::contact_accels, 3);
    }
    reals::lemma_vectors(v, f, f, ps[0].mass);
    reals::lemma_vectors(v, f, f, ps[1].mass);
    reals::lemma_vectors(v, z, f.div(ps[0].mass), ps[0].mass);
    reals::lemma_vectors(v, z, f.div(ps[1].mass), ps[1].mass);
    reals::lemma_vectors(v, a, params.gravity, ps[0].mass);
    reals::lemma_vectors(v, b, params.gravity, ps[0].mass);
    let (x, y) = (arrow(v, f), arrow(v, f.div(ps[1].mass)));
    let m = v(ps[1].mass);
    reals::lemma_negative(y.x, m);
    reals::lemma_negative(y.y, m);
    reals::lemma_negative(y.z, m);
    reals::lemma_trivial_factors(x.x);
    reals::lemma_trivial_factors(x.y);
    reals::lemma_trivial_factors(x.z);
    let e = granular::stepped(ps, params, dt);
    assert(e[0].accel == a.add(params.gravity));
    assert(e[1].accel == b.add(params.gravity));
    assert(arrow(v, e[0].accel).minus(arrow(v, params.gravity)) == arrow(v, f.div(ps[0].mass)));
    assert(arrow(v, e[1].accel).minus(arrow(v, params.gravity)) == (Arrow {
        x: -y.x,
        y: -y.y,
        z: -y.z,
    }));
}

/// Among the neighbours of the first of two grains only the second one counts.
proof fn lemma_only_contact<R: Real>(
    accels: Seq<Vector<R>>,
    ps: Seq<GranularParticle<R>>,
    params: GranularParams<R>,
    js: Seq<usize>,
    n: nat,
    at: int,
)
    requires
        ps.len() == 2,
        accels.len() == 2,
        n <= js.len(),
        0 <= at < js.len(),
        js[at] == 1,
        forall|k: int| 0 <= k < js.len() ==> (#[trigger] js[k]) < 2,
        js.no_duplicates(),
        granular::touching(ps[0], ps[1]),
    ensures
        granular::with_contacts(accels, ps, params, 0, js, n) == (if at < n {
            granular::with_contact(accels, ps, params, 0, 1)
        } else {
            accels
        }),
    decreases n,
{
    if n > 0 {
        lemma_only_contact(accels, ps, params, js, (n - 1) as nat, at);
        if n - 1 != at {
            assert(js[n - 1] != js[at]);
            assert(js[n - 1] == 0);
        }
    }
}

/// The second of two grains acts on none after it.
proof fn lemma_nothing_more<R: Real>(
    accels: Seq<Vector<R>>,
    ps: Seq<GranularParticle<R>>,
    params: GranularParams<R>,
    js: Seq<usize>,
    n: nat,
)
    requires
        n <= js.len(),
        forall|k: int| 0 <= k < js.len() ==> (#[trigger] js[k]) < 2,
    ensures
        granular::with_contacts(accels, ps, params, 1, js, n) == accels,
    decreases n,
{
    if n > 0 {
        lemma_nothing_more(accels, ps, params, js, (n - 1) as nat);
    }
}

/// A step is semi-implicit: the velocity changes by the acceleration over the time, and the
/// position by the new velocity over the time.
pub proof fn lemma_step_follows_acceleration<R: Real>(
    v: spec_fn(R) -> real,
    ps: Seq<GranularParticle<R>>,
    params: GranularParams<R>,
    dt: R,
    i: int,
)
    requires
        unrounded(v),
        0 <= i < ps.len(),
    ensures
        ({
            let (p, q) = (ps[i], granular::stepped(ps, params, dt)[i]);
            &&& arrow(v, q.vel).minus(arrow(v, p.vel)) == arrow(v, q.accel).times(v(dt))
            &&& arrow(v, q.pos).minus(arrow(v, p.pos)) == arrow(v, q.vel).times(v(dt))
        }),
{
    let (p, q) = (ps[i], granular::stepped(ps, params, dt)[i]);
    reals::lemma_vectors(v, q.accel, q.accel, dt);
    reals::lemma_vectors(v, p.vel, q.accel.scale(dt), dt);
    reals::lemma_vectors(v, q.vel, q.vel, dt);
    reals::lemma_vectors(v, p.pos, q.vel.scale(dt), dt);
}

} // verus!
