//! What the forces, the steps and the friction of soft bodies are for, where arithmetic does not
//! round.
use vstd::prelude::*;
use crate::dynamics::soft_body::between;
use crate::dynamics::soft_body::between::{PairRule, Two};
use crate::dynamics::soft_body::constraints;
use crate::dynamics::soft_body::forces;
use crate::dynamics::soft_body::model::{SoftParticle, SoftSolver, SoftState, Spring, Wind};
use crate::dynamics::soft_body::projection;
use crate::dynamics::soft_body::self_collision;
use crate::dynamics::soft_body::solver;
use crate::fixed;
use crate::math::Vector;
use crate::reals;
use crate::reals::{arrow, unrounded, Arrow};
use crate::scalar::Real;

verus! {

/// What a spring does: it pulls along its axis, with the stiffness times the elongation and the
/// damping times the velocity at which its ends part.
pub proof fn lemma_spring_pulls_along_its_axis<R: Real>(
    v: spec_fn(R) -> real,
    ps: Seq<SoftParticle<R>>,
    s: Spring<R>,
    l: real,
)
    requires
        unrounded(v),
        s.a < ps.len(),
        s.b < ps.len(),
        l > 0real,
        l * l == projection::between(v, ps, s.b as int, s.a as int).square(),
    ensures
        forces::spring_acts(ps, s),
        ({
            let axis = projection::between(v, ps, s.b as int, s.a as int);
            let parting = arrow(v, ps[s.b as int].vel).minus(arrow(v, ps[s.a as int].vel));
            let f = arrow(v, forces::spring_pull(ps, s));
            &&& f.across(axis) == Arrow::none()
            &&& f.inner(axis) == (v(s.stiffness) * (l - v(s.rest_length))) * l + v(s.damping)
                * parting.inner(axis)
        }),
{
    let (a, b) = (ps[s.a as int], ps[s.b as int]);
    let delta = b.pos.sub(a.pos);
    let len = delta.length();
    let dir = delta.div(len);
    let dv = b.vel.sub(a.vel);
    reals::lemma_vectors(v, b.pos, a.pos, len);
    reals::lemma_vectors(v, delta, delta, len);
    reals::lemma_same_square(v(len), l);
    reals::lemma_vectors(v, b.vel, a.vel, len);
    reals::lemma_vectors(v, dv, dir, len);
    let size = s.stiffness.mul(len.sub(s.rest_length)).add(s.damping.mul(dv.dot(dir)));
    reals::lemma_vectors(v, dir, dir, size);
    let n = arrow(v, dir);
    let axis = arrow(v, delta);
    assert(axis == n.times(l));
    let k = v(size);
    reals::lemma_across_times(n, k, axis);
    reals::lemma_across_times(n, l, axis);
    reals::lemma_trivial_factors(k);
    reals::lemma_inner_times(n, k, axis);
    lemma_unit(n, axis, l);
    let p = arrow(v, dv);
    reals::lemma_inner_times(n, l, p);
    let (e, c, t) = (v(s.stiffness) * (l - v(s.rest_length)), v(s.damping), p.inner(n));
    reals::lemma_sum_times(e, c * t, l);
    reals::lemma_factors(c, t, l);
}

/// A direction has its length along the axis that it is the direction of.
proof fn lemma_unit(n: Arrow, axis: Arrow, l: real)
    requires
        l > 0real,
        axis == n.times(l),
        l * l == axis.square(),
    ensures
        n.square() == 1real,
        n.inner(axis) == l,
{
    reals::lemma_inner_times(n, l, axis);
    reals::lemma_inner_times(n, l, n);
    let q = n.square();
    reals::lemma_factors(q, l, l);
    reals::lemma_product_sign(l, l);
    reals::lemma_trivial_factors(l * l);
    reals::lemma_cancel(q, 1real, l * l);
    reals::lemma_trivial_factors(l);
}

/// A free particle is predicted by the laws of motion: its velocity changes by the accelerations
/// of gravity and wind, less the drag, and by the pressure over its mass; then its position
/// changes by its new velocity.
pub proof fn lemma_prediction_follows_accelerations<R: Real>(
    v: spec_fn(R) -> real,
    p: SoftParticle<R>,
    gravity: Vector<R>,
    wind: Option<Wind<R>>,
    pressure: Vector<R>,
    dt: R,
)
    requires
        unrounded(v),
    ensures
        ({
            let q = solver::predicted(p, gravity, wind, pressure, dt);
            let blown = match wind {
                Some(w) => arrow(v, w.accel).minus(arrow(v, p.vel).times(v(w.drag))),
                None => Arrow::none(),
            };
            &&& p.bound_body is Some || v(p.inv_mass) == 0real ==> q == p
            &&& p.bound_body is None && v(p.inv_mass) != 0real ==> arrow(v, q.vel).minus(
                arrow(v, p.vel),
            ) == arrow(v, gravity).plus(blown).plus(
                arrow(v, pressure).times(v(p.inv_mass)),
            ).times(v(dt))
            &&& p.bound_body is None && v(p.inv_mass) != 0real ==> arrow(v, q.pos).minus(
                arrow(v, p.pos),
            ) == arrow(v, q.vel).times(v(dt))
        }),
{
    let q = solver::predicted(p, gravity, wind, pressure, dt);
    let blown = match wind {
        Some(w) => gravity.add(w.accel).sub(p.vel.scale(w.drag)),
        None => gravity,
    };
    if wind is Some {
        let w = wind->0;
        reals::lemma_vectors(v, gravity, w.accel, dt);
        reals::lemma_vectors(v, p.vel, p.vel, w.drag);
        reals::lemma_vectors(v, gravity.add(w.accel), p.vel.scale(w.drag), dt);
    }
    reals::lemma_vectors(v, pressure, pressure, p.inv_mass);
    let pushed = pressure.scale(p.inv_mass);
    reals::lemma_vectors(v, blown, pushed, dt);
    let a = blown.add(pushed);
    reals::lemma_vectors(v, a, a, dt);
    reals::lemma_vectors(v, p.vel, a.scale(dt), dt);
    reals::lemma_vectors(v, q.vel, q.vel, dt);
    reals::lemma_vectors(v, p.pos, q.vel.scale(dt), dt);
}

/// A projected body has the velocities that brought its particles to where they are, less the
/// share that the damping takes: over the time of the substep they give the way that each free
/// particle went.
pub proof fn lemma_velocities_are_recovered<R: Real>(
    v: spec_fn(R) -> real,
    s: SoftState<R>,
    dt: R,
    i: int,
)
    requires
        unrounded(v),
        v(dt) != 0real,
        v(s.damping) >= 0real,
        0 <= i < s.particles.len(),
        s.particles.len() == s.projected(
            dt,
            (s.solver->iterations) as nat,
        ).particles.len(),
        s.solver is Xpbd,
        s.solver->iterations > 0,
        !s.sleeping,
        s.contact_friction() is None,
    ensures
        ({
            let q = s.xpbd_stepped(dt).particles[i];
            let went = arrow(v, q.pos).minus(arrow(v, s.particles[i].pos));
            &&& q.pos == s.projected(dt, (s.solver->iterations) as nat).particles[i].pos
            &&& q.bound_body is None && v(q.inv_mass) != 0real ==> arrow(v, q.vel).times(v(dt))
                == went.times(1real - v(s.damping))
        }),
{
    let p = s.projected(dt, (s.solver->iterations) as nat).particles[i];
    let prev = s.particles[i].pos;
    let keep = R::one().sub(s.damping);
    let q = s.xpbd_stepped(dt).particles[i];
    assert(q == solver::recovered(p, prev, keep, dt));
    reals::lemma_vectors(v, p.pos, prev, dt);
    let d = p.pos.sub(prev);
    reals::lemma_vectors(v, d, d, dt);
    let u = d.div(dt);
    reals::lemma_vectors(v, u, u, keep);
    let (a, b) = (arrow(v, u), arrow(v, d));
    reals::lemma_factors(a.x, v(keep), v(dt));
    reals::lemma_factors(a.y, v(keep), v(dt));
    reals::lemma_factors(a.z, v(keep), v(dt));
    reals::lemma_trivial_factors(b.x);
    reals::lemma_trivial_factors(b.y);
    reals::lemma_trivial_factors(b.z);
}

/// A mass-spring body without repulsion follows the forces on it: a free particle's velocity
/// changes by the force over its mass and loses the share that the damping takes, then its
/// position changes by its new velocity.
pub proof fn lemma_motion_follows_forces<R: Real>(
    v: spec_fn(R) -> real,
    s: SoftState<R>,
    dt: R,
    i: int,
)
    requires
        unrounded(v),
        v(s.damping) >= 0real,
        0 <= i < s.particles.len(),
        !s.sleeping,
        s.self_collision is None,
        s.particles[i].bound_body is None,
        v(s.particles[i].inv_mass) != 0real,
    ensures
        ({
            let p = s.particles[i];
            let q = s.mass_spring_stepped(dt).particles[i];
            let w = v(p.inv_mass);
            let blown = match s.wind {
                Some(b) => arrow(v, b.accel).minus(arrow(v, p.vel).times(v(b.drag))),
                None => Arrow::none(),
            };
            let acceleration = arrow(v, s.gravity).plus(blown).plus(
                arrow(v, s.pressure_forces()[i]).plus(arrow(v, s.spring_forces()[i])).times(w),
            );
            &&& arrow(v, q.vel) == arrow(v, p.vel).plus(acceleration.times(v(dt))).times(
                1real - v(s.damping),
            )
            &&& arrow(v, q.pos).minus(arrow(v, p.pos)) == arrow(v, q.vel).times(v(dt))
        }),
{
    let p = s.particles[i];
    let q = s.mass_spring_stepped(dt).particles[i];
    let f = s.total_force(i);
    let keep = R::one().sub(s.damping);
    assert(s.forces_computed().particles[i] == (SoftParticle { force: f, ..p }));
    assert(q == forces::advanced(SoftParticle { force: f, ..p }, keep, dt));
    lemma_force_is_mass_times_acceleration(v, s, i);
    let w = v(p.inv_mass);
    let step = dt.mul(p.inv_mass);
    reals::lemma_vectors(v, f, f, step);
    let change = f.scale(step);
    reals::lemma_vectors(v, p.vel, change, dt);
    let pushed = p.vel.add(change);
    reals::lemma_vectors(v, pushed, pushed, keep);
    reals::lemma_vectors(v, q.vel, q.vel, dt);
    reals::lemma_vectors(v, p.pos, q.vel.scale(dt), dt);
    let a = arrow(v, f);
    reals::lemma_factors(a.x, w, v(dt));
    reals::lemma_factors(a.y, w, v(dt));
    reals::lemma_factors(a.z, w, v(dt));
    reals::lemma_sum_times(w, w, v(dt));
    let b = arrow(v, pushed);
    reals::lemma_trivial_factors(b.x);
    reals::lemma_trivial_factors(b.y);
    reals::lemma_trivial_factors(b.z);
}

/// The force on a free particle over its mass.
proof fn lemma_force_is_mass_times_acceleration<R: Real>(
    v: spec_fn(R) -> real,
    s: SoftState<R>,
    i: int,
)
    requires
        unrounded(v),
        0 <= i < s.particles.len(),
        s.particles[i].bound_body is None,
        v(s.particles[i].inv_mass) != 0real,
    ensures
        ({
            let p = s.particles[i];
            let w = v(p.inv_mass);
            let blown = match s.wind {
                Some(b) => arrow(v, b.accel).minus(arrow(v, p.vel).times(v(b.drag))),
                None => Arrow::none(),
            };
            arrow(v, s.total_force(i)).times(w) == arrow(v, s.gravity).plus(blown).plus(
                arrow(v, s.pressure_forces()[i]).plus(arrow(v, s.spring_forces()[i])).times(w),
            )
        }),
{
    let p = s.particles[i];
    let w = v(p.inv_mass);
    let m = v(p.mass());
    reals::lemma_quotient(1real, w);
    assert(m * w == 1real);
    let (x, y) = (s.pressure_forces()[i], s.spring_forces()[i]);
    let g = s.gravity;
    reals::lemma_vectors(v, g, g, p.mass());
    let weight = g.scale(p.mass());
    let blown = match s.wind {
        Some(b) => weight.add(b.accel.scale(p.mass())).sub(p.vel.scale(p.mass().mul(b.drag))),
        None => weight,
    };
    let none = Arrow::none();
    let (ga, xa, ya) = (arrow(v, g), arrow(v, x), arrow(v, y));
    if s.wind is Some {
        let b = s.wind->0;
        reals::lemma_vectors(v, b.accel, b.accel, p.mass());
        reals::lemma_vectors(v, weight, b.accel.scale(p.mass()), p.mass());
        reals::lemma_vectors(v, p.vel, p.vel, p.mass().mul(b.drag));
        reals::lemma_vectors(
            v,
            weight.add(b.accel.scale(p.mass())),
            p.vel.scale(p.mass().mul(b.drag)),
            p.mass(),
        );
        let (wa, va, c) = (arrow(v, b.accel), arrow(v, p.vel), v(b.drag));
        lemma_blown(ga.x, wa.x, va.x, c, xa.x, ya.x, m, w);
        lemma_blown(ga.y, wa.y, va.y, c, xa.y, ya.y, m, w);
        lemma_blown(ga.z, wa.z, va.z, c, xa.z, ya.z, m, w);
    } else {
        lemma_weighed(ga.x, xa.x, ya.x, m, w);
        lemma_weighed(ga.y, xa.y, ya.y, m, w);
        lemma_weighed(ga.z, xa.z, ya.z, m, w);
    }
    reals::lemma_vectors(v, blown, x, p.mass());
    reals::lemma_vectors(v, blown.add(x), y, p.mass());
}

/// One coordinate of a force in still air.
proof fn lemma_weighed(g: real, x: real, y: real, m: real, w: real)
    requires
        m * w == 1real,
    ensures
        (g * m + x + y) * w == g + (x + y) * w,
{
    reals::lemma_sum_times(g * m, x + y, w);
    reals::lemma_factors(g, m, w);
    reals::lemma_trivial_factors(g);
}

/// One coordinate of a force in wind.
proof fn lemma_blown(g: real, a: real, u: real, c: real, x: real, y: real, m: real, w: real)
    requires
        m * w == 1real,
    ensures
        (((g * m + a * m) - u * (m * c)) + x + y) * w == (g + (a - u * c)) + (x + y) * w,
{
    let t = g + (a - u * c);
    reals::lemma_sum_times(g, a, m);
    reals::lemma_sum_times(g + a, u * c, m);
    reals::lemma_factors(u, m, c);
    reals::lemma_factors(u, c, m);
    reals::lemma_sum_times(m, m, c);
    lemma_weighed(t, x, y, m, w);
}

/// A face under pressure pushes each of its corners along its normal with the pressure times its
/// area, half the length of that normal, and to the side where `center` is not.
pub proof fn lemma_pressure_pushes_outward<R: Real>(
    v: spec_fn(R) -> real,
    ps: Seq<SoftParticle<R>>,
    t: [u32; 3],
    center: Vector<R>,
    pressure: R,
)
    requires
        unrounded(v),
        t[0] < ps.len(),
        t[1] < ps.len(),
        t[2] < ps.len(),
        forces::face_acts(ps, t),
        v(pressure) >= 0real,
    ensures
        ({
            let (a, b, c) = (
                arrow(v, ps[t[0] as int].pos),
                arrow(v, ps[t[1] as int].pos),
                arrow(v, ps[t[2] as int].pos),
            );
            let normal = b.minus(a).across(c.minus(a));
            let f = arrow(v, forces::face_push(ps, t, center, pressure));
            &&& f.across(normal) == Arrow::none()
            &&& f.square() * 4real == (v(pressure) * v(pressure)) * normal.square()
            &&& f.inner(a.plus(b).plus(c).minus(arrow(v, center).times(3real))) >= 0real
        }),
{
    let (pa, pb, pc) = (ps[t[0] as int].pos, ps[t[1] as int].pos, ps[t[2] as int].pos);
    let three = R::decimal(3, 0);
    reals::lemma_whole(v, 3);
    reals::lemma_vectors(v, pb, pa, three);
    reals::lemma_vectors(v, pc, pa, three);
    reals::lemma_vectors(v, pb.sub(pa), pc.sub(pa), three);
    let n = forces::face_normal(ps, t);
    let normal = arrow(v, n);
    reals::lemma_vectors(v, n, n, three);
    let l = v(n.length());
    let half = v(R::decimal(5, 1));
    lemma_half(v);
    reals::lemma_trivial_factors(half);
    if l <= 0real {
        assert(l == 0real);
    }
    assert(l > 0real);
    let inv = R::one().div(n.length());
    reals::lemma_quotient(1real, l);
    reals::lemma_vectors(v, n, n, inv);
    let n_hat = n.normalize();
    let u = arrow(v, n_hat);
    assert(u == normal.times(1real / l));
    lemma_back_to_length(normal, 1real / l, l);
    assert(normal == u.times(l));
    lemma_unit(u, normal, l);
    let sum = pa.add(pb).add(pc);
    reals::lemma_vectors(v, pa, pb, three);
    reals::lemma_vectors(v, pa.add(pb), pc, three);
    reals::lemma_vectors(v, sum, sum, three);
    let middle = sum.div(three);
    reals::lemma_vectors(v, middle, center, three);
    let off = middle.sub(center);
    reals::lemma_vectors(v, off, n_hat, three);
    reals::lemma_vectors(v, n_hat, n_hat, three);
    let side = v(off.dot(n_hat));
    let area = n.length().mul(R::decimal(5, 1));
    let size = pressure.mul(area);
    let k = v(pressure) * (l * half);
    assert(v(size) == k);
    reals::lemma_vectors(v, n_hat, n_hat, size);
    reals::lemma_vectors(v, n_hat.neg(), n_hat.neg(), size);
    let f = arrow(v, forces::face_push(ps, t, center, pressure));
    let sign = if side >= 0real {
        1real
    } else {
        -1real
    };
    reals::lemma_trivial_factors(u.x);
    reals::lemma_trivial_factors(u.y);
    reals::lemma_trivial_factors(u.z);
    assert(f == u.times(sign).times(k));
    reals::lemma_across_times(u.times(sign), k, normal);
    reals::lemma_across_times(u, sign, normal);
    reals::lemma_across_times(u, l, normal);
    reals::lemma_trivial_factors(k);
    reals::lemma_trivial_factors(sign);
    let w = u.times(sign);
    reals::lemma_inner_times(u, sign, w);
    reals::lemma_inner_times(u, sign, u);
    reals::lemma_inner_times(w, k, f);
    reals::lemma_inner_times(w, k, w);
    assert(w.square() == 1real);
    assert(f.square() == k * k);
    lemma_doubled(k, v(pressure), l, half);
    let far = arrow(v, pa).plus(arrow(v, pb)).plus(arrow(v, pc)).minus(
        arrow(v, center).times(3real),
    );
    let o = arrow(v, off);
    let mid = arrow(v, middle);
    let c = arrow(v, center);
    reals::lemma_sum_times(mid.x, c.x, 3real);
    reals::lemma_sum_times(mid.y, c.y, 3real);
    reals::lemma_sum_times(mid.z, c.z, 3real);
    assert(far == o.times(3real));
    reals::lemma_inner_times(o, 3real, f);
    reals::lemma_inner_times(w, k, o);
    reals::lemma_inner_times(u, sign, o);
    reals::lemma_product_sign(l, half);
    reals::lemma_product_sign(v(pressure), l * half);
    let x = o.inner(u) * sign;
    reals::lemma_trivial_factors(o.inner(u));
    assert(x >= 0real);
    reals::lemma_product_sign(x, k);
}

proof fn lemma_half<R: Real>(v: spec_fn(R) -> real)
    requires
        unrounded(v),
    ensures
        v(R::decimal(5, 1)) + v(R::decimal(5, 1)) == 1real,
        v(R::decimal(5, 1)) > 0real,
{
    reals::lemma_decimal_positive(v, 5, 1);
    assert(fixed::pow10(1) == 10) by {
        reveal_with_fuel(fixed::pow10, 3);
    }
    reals::lemma_quotient(5real, 10real);
    assert(v(R::decimal(5, 1)) == 5real / 10real);
}

/// Dividing by a length and multiplying by it gives an arrow back.
proof fn lemma_back_to_length(n: Arrow, q: real, l: real)
    requires
        q * l == 1real,
    ensures
        n.times(q).times(l) == n,
{
    reals::lemma_factors(n.x, q, l);
    reals::lemma_factors(n.y, q, l);
    reals::lemma_factors(n.z, q, l);
    reals::lemma_trivial_factors(n.x);
    reals::lemma_trivial_factors(n.y);
    reals::lemma_trivial_factors(n.z);
}

/// The square of a pressure times half a length.
proof fn lemma_doubled(k: real, p: real, l: real, half: real)
    requires
        half + half == 1real,
        k == p * (l * half),
    ensures
        (k * k) * 4real == (p * p) * (l * l),
{
    reals::lemma_sum_times(half, half, l);
    reals::lemma_trivial_factors(l);
    let h = l * half;
    assert(h + h == l);
    reals::lemma_four_factors(p, h, p, h);
    reals::lemma_sum_times(h, h, h);
    reals::lemma_sum_times(h, h, l);
    assert(l * l == (h * h) * 4real);
    reals::lemma_factors(p * p, h * h, 4real);
}

/// Friction takes the given share of the velocity with which two particles slide past each other,
/// and nothing of that with which they approach or part. It keeps the momentum of the two, and
/// their places.
pub proof fn lemma_friction_takes_its_share<R: Real>(
    v: spec_fn(R) -> real,
    ps: Seq<SoftParticle<R>>,
    i: int,
    j: int,
    mu: R,
    l: real,
)
    requires
        unrounded(v),
        0 <= i < ps.len(),
        0 <= j < ps.len(),
        i != j,
        l >= v(R::decimal(1, 12)),
        l * l == projection::between(v, ps, i, j).square(),
        v(ps[i].inv_mass) + v(ps[j].inv_mass) != 0real,
    ensures
        ({
            let qs = constraints::friction_at(ps, i, j, mu);
            let axis = projection::between(v, ps, i, j);
            let before = arrow(v, ps[i].vel).minus(arrow(v, ps[j].vel));
            let after = arrow(v, qs[i].vel).minus(arrow(v, qs[j].vel));
            let (da, db) = (
                arrow(v, qs[i].vel).minus(arrow(v, ps[i].vel)),
                arrow(v, qs[j].vel).minus(arrow(v, ps[j].vel)),
            );
            &&& qs.len() == ps.len()
            &&& after.inner(axis) == before.inner(axis)
            &&& after.across(axis) == before.across(axis).times(1real - v(mu))
            &&& da.times(v(ps[j].inv_mass)).plus(db.times(v(ps[i].inv_mass))) == Arrow::none()
            &&& forall|k: int|
                0 <= k < ps.len() && k != i && k != j ==> #[trigger] qs[k] == ps[k]
            &&& forall|k: int|
                0 <= k < ps.len() ==> #[trigger] qs[k] == (SoftParticle { vel: qs[k].vel, ..ps[k] })
        }),
{
    let qs = constraints::friction_at(ps, i, j, mu);
    let (a, b) = (ps[i], ps[j]);
    reals::lemma_decimal_positive(v, 1, 12);
    let delta = a.pos.sub(b.pos);
    let len = delta.length();
    reals::lemma_vectors(v, a.pos, b.pos, len);
    reals::lemma_vectors(v, delta, delta, len);
    reals::lemma_same_square(v(len), l);
    let n = delta.div(len);
    let rel = a.vel.sub(b.vel);
    reals::lemma_vectors(v, a.vel, b.vel, len);
    reals::lemma_vectors(v, rel, n, len);
    let along = rel.dot(n);
    reals::lemma_vectors(v, n, n, along);
    reals::lemma_vectors(v, rel, n.scale(along), len);
    let slide = rel.sub(n.scale(along));
    reals::lemma_vectors(v, slide, slide, mu);
    let corr = slide.scale(mu);
    assert(constraints::slip(a, b, mu) == Some(corr));
    let sum = a.inv_mass.add(b.inv_mass);
    let (wa, wb, ws) = (v(a.inv_mass), v(b.inv_mass), v(sum));
    let (sa, sb) = (a.inv_mass.div(sum), b.inv_mass.div(sum));
    reals::lemma_quotient(wa, ws);
    reals::lemma_quotient(wb, ws);
    reals::lemma_sum_times(wa / ws, wb / ws, ws);
    reals::lemma_trivial_factors(ws);
    reals::lemma_cancel(wa / ws + wb / ws, 1real, ws);
    reals::lemma_vectors(v, corr, corr, sa);
    reals::lemma_vectors(v, corr, corr, sb);
    reals::lemma_vectors(v, a.vel, corr.scale(sa), len);
    reals::lemma_vectors(v, b.vel, corr.scale(sb), len);
    let (c, u, axis, r) = (arrow(v, corr), arrow(v, n), arrow(v, delta), arrow(v, rel));
    lemma_two_shares(c.x, wa, wb, ws);
    lemma_two_shares(c.y, wa, wb, ws);
    lemma_two_shares(c.z, wa, wb, ws);
    let after = arrow(v, qs[i].vel).minus(arrow(v, qs[j].vel));
    assert(after == r.minus(c));
    assert(axis == u.times(l));
    lemma_unit(u, axis, l);
    let t = r.inner(u);
    let sl = arrow(v, slide);
    assert(sl == r.minus(u.times(t)));
    reals::lemma_inner_plus(r, u.times(t), axis);
    reals::lemma_inner_times(u, t, axis);
    reals::lemma_inner_times(u, l, r);
    reals::lemma_sum_times(t, 0real, l);
    assert(sl.inner(axis) == 0real);
    reals::lemma_inner_times(sl, v(mu), axis);
    reals::lemma_trivial_factors(v(mu));
    reals::lemma_inner_plus(r, c, axis);
    reals::lemma_across(r, u.times(t), axis);
    reals::lemma_across_times(u, t, axis);
    reals::lemma_across_times(u, l, axis);
    reals::lemma_trivial_factors(t);
    assert(sl.across(axis) == r.across(axis));
    reals::lemma_across_times(sl, v(mu), axis);
    reals::lemma_across(r, c, axis);
    let x = r.across(axis);
    lemma_rest_of(x.x, v(mu));
    lemma_rest_of(x.y, v(mu));
    lemma_rest_of(x.z, v(mu));
}

proof fn lemma_rest_of(x: real, m: real)
    ensures
        x - x * m == x * (1real - m),
{
    reals::lemma_sum_times(1real, m, x);
    reals::lemma_trivial_factors(x);
}

/// One coordinate of what two particles lose and gain.
proof fn lemma_two_shares(c: real, wa: real, wb: real, ws: real)
    requires
        ws == wa + wb,
        ws != 0real,
        wa / ws + wb / ws == 1real,
    ensures
        c * (wa / ws) + c * (wb / ws) == c,
        (-(c * (wa / ws))) * wb + (c * (wb / ws)) * wa == 0real,
{
    let (p, q) = (wa / ws, wb / ws);
    reals::lemma_quotient(wa, ws);
    reals::lemma_quotient(wb, ws);
    reals::lemma_sum_times(p, q, c);
    reals::lemma_trivial_factors(c);
    reals::lemma_negative(c * p, wb);
    reals::lemma_factors(c, p, wb);
    reals::lemma_factors(c, q, wa);
    reals::lemma_factors(p, q, ws);
    reals::lemma_factors(q, p, ws);
}

/// Two bodies that meet bring a pair of particles towards the rest distance along the line between
/// them: what the distance is off shrinks to the share that the compliance is of the sum of the
/// weights and the compliance. The common centre by the weights stays, and nothing else moves.
pub proof fn lemma_pair_meets_at_rest_distance<R: Real>(
    v: spec_fn(R) -> real,
    s: Two<R>,
    i: int,
    j: int,
    rule: PairRule<R>,
    l: real,
) -> (m: real)
    requires
        unrounded(v),
        0 <= i < s.a.len(),
        0 <= j < s.b.len(),
        l > v(R::decimal(1, 9)),
        l * l == arrow(v, s.a[i].pos).minus(arrow(v, s.b[j].pos)).square(),
        l < v(rule.reach),
        rule.break_distance is Some ==> l < v(rule.break_distance->0),
        v(s.a[i].inv_mass) + v(s.b[j].inv_mass) > 0real,
        v(rule.compliance) >= 0real,
        rule.friction is None,
    ensures
        ({
            let two = between::pair_met(s, i, j, rule);
            let before = arrow(v, s.a[i].pos).minus(arrow(v, s.b[j].pos));
            let after = arrow(v, two.a[i].pos).minus(arrow(v, two.b[j].pos));
            let (wa, wb) = (v(s.a[i].inv_mass), v(s.b[j].inv_mass));
            let (da, db) = (
                arrow(v, two.a[i].pos).minus(arrow(v, s.a[i].pos)),
                arrow(v, two.b[j].pos).minus(arrow(v, s.b[j].pos)),
            );
            &&& after.times(l) == before.times(m)
            &&& (m - v(rule.rest)) * (wa + wb + v(rule.compliance)) == v(rule.compliance) * (l - v(
                rule.rest,
            ))
            &&& da.times(wb).plus(db.times(wa)) == Arrow::none()
            &&& two.a == s.a.update(i, SoftParticle { pos: two.a[i].pos, ..s.a[i] })
            &&& two.b == s.b.update(j, SoftParticle { pos: two.b[j].pos, ..s.b[j] })
        }),
{
    let ps = seq![s.a[i], s.b[j]];
    let w = seq![s.a[i].inv_mass, s.b[j].inv_mass];
    let out = constraints::distance_projected(ps, 0, 1, rule.rest, rule.compliance, w, R::zero());
    reals::lemma_decimal_positive(v, 1, 9);
    projection::lemma_edge_meets_its_compliance(
        v,
        ps,
        0,
        1,
        rule.rest,
        rule.compliance,
        w,
        R::zero(),
        l,
    );
    let two = between::pair_met(s, i, j, rule);
    reals::lemma_vectors(v, s.a[i].pos, s.b[j].pos, rule.rest);
    let delta = s.a[i].pos.sub(s.b[j].pos);
    reals::lemma_vectors(v, delta, delta, rule.rest);
    reals::lemma_same_square(v(delta.length()), l);
    assert(two.a[i] == out.particles[0]);
    assert(two.b[j] == out.particles[1]);
    assert(two.a =~= s.a.update(i, SoftParticle { pos: two.a[i].pos, ..s.a[i] }));
    assert(two.b =~= s.b.update(j, SoftParticle { pos: two.b[j].pos, ..s.b[j] }));
    let (c, x) = (v(rule.compliance), v(out.lambda));
    let sum = v(w[0]) + v(w[1]) + c;
    let m = v(rule.rest) - c * x;
    reals::lemma_trivial_factors(c);
    reals::lemma_negative(c * x, sum);
    reals::lemma_factors(c, x, sum);
    reals::lemma_negative(c, v(rule.rest) - l);
    assert(m - v(rule.rest) == -(c * x));
    assert(x * sum == v(rule.rest) - l);
    m
}

/// Particles repelled within a body are brought towards the distance to keep in the same way: a
/// pair that is joined by an edge or far enough apart is left alone, one that is not is moved apart
/// and recorded.
pub proof fn lemma_repulsion_moves_apart<R: Real>(
    v: spec_fn(R) -> real,
    rep: self_collision::Repulsion<R>,
    s: self_collision::Pushed<R>,
    i: int,
    j: int,
    l: real,
)
    requires
        unrounded(v),
        0 <= i < j < s.particles.len() <= usize::MAX,
        l > 0real,
        l * l == projection::between(v, s.particles, i, j).square(),
        v(rep.w[i]) >= 0real,
        v(rep.w[j]) >= 0real,
        v(rep.w[i]) + v(rep.w[j]) > 0real,
        v(rep.alpha) >= 0real,
    ensures
        ({
            let out = rep.pair(s, i, j);
            let after = projection::between(v, out.particles, i, j);
            let before = projection::between(v, s.particles, i, j);
            let near = l < v(rep.d) && !self_collision::linked(rep.edges, i, j);
            &&& !near ==> out == s
            &&& near ==> out.contacts == s.contacts.push((i as usize, j as usize))
            &&& near ==> after.across(before) == Arrow::none() && after.inner(before) > 0real
            &&& near ==> l * l < after.square() <= v(rep.d) * v(rep.d)
        }),
{
    let delta = s.particles[i].pos.sub(s.particles[j].pos);
    reals::lemma_vectors(v, s.particles[i].pos, s.particles[j].pos, rep.d);
    reals::lemma_vectors(v, delta, delta, rep.d);
    reals::lemma_same_square(v(delta.length()), l);
    let near = l < v(rep.d) && !self_collision::linked(rep.edges, i, j);
    if near {
        projection::lemma_edge_meets_its_compliance(
            v,
            s.particles,
            i,
            j,
            rep.d,
            rep.alpha,
            rep.w,
            R::zero(),
            l,
        );
        let out = rep.pair(s, i, j);
        let after = projection::between(v, out.particles, i, j);
        let before = projection::between(v, s.particles, i, j);
        let x = v(
            constraints::distance_projected(
                s.particles,
                i,
                j,
                rep.d,
                rep.alpha,
                rep.w,
                R::zero(),
            ).lambda,
        );
        let c = v(rep.alpha);
        let m = v(rep.d) - c * x;
        let ws = v(rep.w[i]) + v(rep.w[j]);
        reals::lemma_trivial_factors(c);
        lemma_between_lengths(x, ws, c, l, v(rep.d), m);
        lemma_longer(after, before, l, m);
        reals::lemma_product_sign(v(rep.d) - m, v(rep.d));
        reals::lemma_product_sign(v(rep.d) - m, m);
        reals::lemma_sum_times(v(rep.d), m, v(rep.d));
        reals::lemma_sum_times(v(rep.d), m, m);
    }
}

/// A correction with compliance ends between the length before and the length to keep.
proof fn lemma_between_lengths(x: real, ws: real, c: real, l: real, d: real, m: real)
    requires
        ws > 0real,
        c >= 0real,
        l < d,
        x * (ws + c) == d - l,
        m == d - c * x,
    ensures
        l < m <= d,
{
    lemma_positive_factor(x, ws + c, d - l);
    reals::lemma_product_sign(c, x);
    reals::lemma_product_sign(ws, x);
    reals::lemma_sum_times(ws, c, x);
}

proof fn lemma_positive_factor(x: real, s: real, y: real)
    requires
        s > 0real,
        y > 0real,
        x * s == y,
    ensures
        x > 0real,
{
    if x <= 0real {
        reals::lemma_product_sign(-x, s);
        reals::lemma_negative(x, s);
    }
}

/// An arrow along another, with a greater length.
proof fn lemma_longer(after: Arrow, before: Arrow, l: real, m: real)
    requires
        0real < l < m,
        after.times(l) == before.times(m),
        l * l == before.square(),
        after.square() == m * m,
    ensures
        after.across(before) == Arrow::none(),
        l * l < after.square(),
        after.inner(before) > 0real,
{
    reals::lemma_across_times(after, l, before);
    reals::lemma_across_times(before, m, before);
    let x = after.across(before);
    reals::lemma_across(before, before, before);
    reals::lemma_trivial_factors(m);
    reals::lemma_trivial_factors(l);
    assert(x.times(l) == Arrow::none());
    reals::lemma_cancel(x.x, 0real, l);
    reals::lemma_cancel(x.y, 0real, l);
    reals::lemma_cancel(x.z, 0real, l);
    reals::lemma_product_sign(m - l, l);
    reals::lemma_product_sign(m - l, m);
    reals::lemma_sum_times(m, l, l);
    reals::lemma_sum_times(m, l, m);
    reals::lemma_inner_times(after, l, before);
    reals::lemma_inner_times(before, m, before);
    reals::lemma_product_sign(l, l);
    reals::lemma_product_sign(l * l, m);
    lemma_positive_factor(after.inner(before), l, before.square() * m);
}

/// The directions in which the volume projection moves the corners of a tetrahedron, six times
/// over, from its three edges at the first corner.
pub open spec fn six_gradients(e1: Arrow, e2: Arrow, e3: Arrow, corner: int) -> Arrow {
    if corner == 0 {
        e3.across(e2)
    } else if corner == 1 {
        e3.across(e1)
    } else if corner == 2 {
        e1.across(e2)
    } else {
        e3.across(e1)
    }
}

proof fn lemma_gradient<R: Real>(
    v: spec_fn(R) -> real,
    e1: Vector<R>,
    e2: Vector<R>,
    e3: Vector<R>,
    corner: u32,
)
    requires
        unrounded(v),
        corner < 4,
    ensures
        arrow(v, constraints::volume_gradient(e1, e2, e3, corner)).times(6real) == six_gradients(
            arrow(v, e1),
            arrow(v, e2),
            arrow(v, e3),
            corner as int,
        ),
{
    let six = R::decimal(6, 0);
    reals::lemma_whole(v, 6);
    let (a, b) = if corner == 0 {
        (e2, e3)
    } else if corner == 1 {
        (e3, e1)
    } else if corner == 2 {
        (e1, e2)
    } else {
        (e1, e3)
    };
    let c = a.cross(b);
    reals::lemma_vectors(v, a, b, six);
    reals::lemma_vectors(v, c, c, six);
    reals::lemma_vectors(v, c, c, six.neg());
    reals::lemma_across(arrow(v, a), arrow(v, b), arrow(v, b));
    let g = arrow(v, constraints::volume_gradient(e1, e2, e3, corner));
    reals::lemma_negative(g.x, 6real);
    reals::lemma_negative(g.y, 6real);
    reals::lemma_negative(g.z, 6real);
}

/// The square of a gradient, thirty-six times over.
proof fn lemma_gradient_square(g: Arrow, w: real)
    ensures
        (w * g.square()) * 36real == w * g.times(6real).square(),
{
    reals::lemma_inner_times(g, 6real, g.times(6real));
    reals::lemma_inner_times(g, 6real, g);
    reals::lemma_factors(w, g.square(), 36real);
}

/// Projecting a volume moves every corner along its gradient by its weight, all by one change of
/// the multiplier: the one with which the volume, changed along the gradients, would be off its
/// rest by what the compliance gives. The gradients are six times over, the volumes with them.
pub proof fn lemma_volume_follows_its_gradients<R: Real>(
    v: spec_fn(R) -> real,
    ps: Seq<SoftParticle<R>>,
    t: [u32; 4],
    rest: R,
    alpha: R,
    w: Seq<R>,
    lambda: R,
)
    requires
        unrounded(v),
        t[0] < ps.len() && t[1] < ps.len() && t[2] < ps.len() && t[3] < ps.len(),
        t[0] != t[1] && t[0] != t[2] && t[0] != t[3] && t[1] != t[2] && t[1] != t[3] && t[2]
            != t[3],
    ensures
        ({
            let out = constraints::volume_projected(ps, t, rest, alpha, w, lambda);
            let (e1, e2, e3) = (
                projection::between(v, ps, t[1] as int, t[0] as int),
                projection::between(v, ps, t[2] as int, t[0] as int),
                projection::between(v, ps, t[3] as int, t[0] as int),
            );
            let (g0, g1, g2, g3) = (
                six_gradients(e1, e2, e3, 0),
                six_gradients(e1, e2, e3, 1),
                six_gradients(e1, e2, e3, 2),
                six_gradients(e1, e2, e3, 3),
            );
            let (w0, w1, w2, w3) = (
                v(w[t[0] as int]),
                v(w[t[1] as int]),
                v(w[t[2] as int]),
                v(w[t[3] as int]),
            );
            let d = v(out.lambda) - v(lambda);
            let whole = 36real * v(alpha) + w0 * g0.square() + w1 * g1.square() + w2 * g2.square()
                + w3 * g3.square();
            &&& whole != 0real ==> d * whole == 36real * v(rest) - 6real * e1.across(e2).inner(e3)
                - 36real * (v(alpha) * v(lambda))
            &&& whole == 0real ==> out.particles == ps && out.lambda == lambda
            &&& projection::shift(v, ps, out.particles, t[0] as int).times(6real) == g0.times(
                w0 * d,
            )
            &&& projection::shift(v, ps, out.particles, t[1] as int).times(6real) == g1.times(
                w1 * d,
            )
            &&& projection::shift(v, ps, out.particles, t[2] as int).times(6real) == g2.times(
                w2 * d,
            )
            &&& projection::shift(v, ps, out.particles, t[3] as int).times(6real) == g3.times(
                w3 * d,
            )
            &&& out.particles.len() == ps.len()
            &&& forall|i: int|
                0 <= i < ps.len() && i != t[0] && i != t[1] && i != t[2] && i != t[3]
                    ==> #[trigger] out.particles[i] == ps[i]
        }),
{
    let out = constraints::volume_projected(ps, t, rest, alpha, w, lambda);
    let p0 = ps[t[0] as int].pos;
    let (e1, e2, e3) = (
        ps[t[1] as int].pos.sub(p0),
        ps[t[2] as int].pos.sub(p0),
        ps[t[3] as int].pos.sub(p0),
    );
    reals::lemma_vectors(v, ps[t[1] as int].pos, p0, rest);
    reals::lemma_vectors(v, ps[t[2] as int].pos, p0, rest);
    reals::lemma_vectors(v, ps[t[3] as int].pos, p0, rest);
    reals::lemma_vectors(v, e1, e2, rest);
    reals::lemma_vectors(v, e1.cross(e2), e3, rest);
    lemma_gradient(v, e1, e2, e3, 0);
    lemma_gradient(v, e1, e2, e3, 1);
    lemma_gradient(v, e1, e2, e3, 2);
    lemma_gradient(v, e1, e2, e3, 3);
    let (g0, g1, g2, g3) = (
        constraints::volume_gradient(e1, e2, e3, 0),
        constraints::volume_gradient(e1, e2, e3, 1),
        constraints::volume_gradient(e1, e2, e3, 2),
        constraints::volume_gradient(e1, e2, e3, 3),
    );
    let (w0, w1, w2, w3) = (w[t[0] as int], w[t[1] as int], w[t[2] as int], w[t[3] as int]);
    lemma_gradient_square(arrow(v, g0), v(w0));
    lemma_gradient_square(arrow(v, g1), v(w1));
    lemma_gradient_square(arrow(v, g2), v(w2));
    lemma_gradient_square(arrow(v, g3), v(w3));
    reals::lemma_vectors(v, g0, g0, rest);
    reals::lemma_vectors(v, g1, g1, rest);
    reals::lemma_vectors(v, g2, g2, rest);
    reals::lemma_vectors(v, g3, g3, rest);
    let denom = alpha.add(w0.mul(g0.dot(g0))).add(w1.mul(g1.dot(g1))).add(w2.mul(g2.dot(g2))).add(
        w3.mul(g3.dot(g3)),
    );
    let d = v(out.lambda) - v(lambda);
    if v(denom) == 0real {
        reals::lemma_trivial_factors(v(w0));
        reals::lemma_trivial_factors(v(w1));
        reals::lemma_trivial_factors(v(w2));
        reals::lemma_trivial_factors(v(w3));
        lemma_no_way(six_gradients(arrow(v, e1), arrow(v, e2), arrow(v, e3), 0));
        lemma_no_way(six_gradients(arrow(v, e1), arrow(v, e2), arrow(v, e3), 1));
        lemma_no_way(six_gradients(arrow(v, e1), arrow(v, e2), arrow(v, e3), 2));
        lemma_no_way(six_gradients(arrow(v, e1), arrow(v, e2), arrow(v, e3), 3));
    } else {
        let six = R::decimal(6, 0);
        reals::lemma_whole(v, 6);
        let bulk = e1.cross(e2).dot(e3);
        reals::lemma_quotient(v(bulk), 6real);
        let off = bulk.div(six).sub(rest);
        let dl = off.neg().sub(alpha.mul(lambda)).div(denom);
        reals::lemma_quotient(-v(off) - v(alpha) * v(lambda), v(denom));
        assert(d == v(dl));
        let whole = v(denom) * 36real;
        reals::lemma_factors(d, v(denom), 36real);
        let q0 = constraints::nudged(ps, t[0] as int, g0, w0, dl);
        let q1 = constraints::nudged(q0, t[1] as int, g1, w1, dl);
        let q2 = constraints::nudged(q1, t[2] as int, g2, w2, dl);
        lemma_nudge(v, ps, t[0] as int, g0, w0, dl);
        lemma_nudge(v, q0, t[1] as int, g1, w1, dl);
        lemma_nudge(v, q1, t[2] as int, g2, w2, dl);
        lemma_nudge(v, q2, t[3] as int, g3, w3, dl);
    }
}

proof fn lemma_no_way(g: Arrow)
    ensures
        g.times(0real) == Arrow::none(),
        Arrow::none().times(6real) == Arrow::none(),
{
    reals::lemma_trivial_factors(g.x);
    reals::lemma_trivial_factors(g.y);
    reals::lemma_trivial_factors(g.z);
    reals::lemma_trivial_factors(6real);
}

/// How far a particle is nudged.
proof fn lemma_nudge<R: Real>(
    v: spec_fn(R) -> real,
    ps: Seq<SoftParticle<R>>,
    i: int,
    g: Vector<R>,
    w: R,
    d: R,
)
    requires
        unrounded(v),
        0 <= i < ps.len(),
    ensures
        constraints::nudged(ps, i, g, w, d).len() == ps.len(),
        projection::shift(v, ps, constraints::nudged(ps, i, g, w, d), i).times(6real) == arrow(
            v,
            g,
        ).times(6real).times(v(w) * v(d)),
        forall|k: int|
            0 <= k < ps.len() && k != i ==> #[trigger] constraints::nudged(ps, i, g, w, d)[k]
                == ps[k],
{
    let s = w.mul(d);
    reals::lemma_vectors(v, g, g, s);
    reals::lemma_vectors(v, ps[i].pos, g.scale(s), s);
    let a = arrow(v, g);
    reals::lemma_factors(a.x, 6real, v(s));
    reals::lemma_factors(a.y, 6real, v(s));
    reals::lemma_factors(a.z, 6real, v(s));
    if v(w) == 0real {
        reals::lemma_trivial_factors(v(d));
        lemma_no_way(a.times(6real));
    }
}

/// The kinetic energy is half the sum of the masses times the squares of the velocities: one
/// particle more adds its part, and a pinned one adds none.
pub proof fn lemma_energy_adds_up<R: Real>(
    v: spec_fn(R) -> real,
    ps: Seq<SoftParticle<R>>,
    p: SoftParticle<R>,
)
    requires
        unrounded(v),
    ensures
        v(forces::energy(ps, 0)) == 0real,
        v(p.inv_mass) == 0real ==> v(forces::energy(ps.push(p), ps.len() + 1)) == v(
            forces::energy(ps, ps.len()),
        ),
        v(p.inv_mass) != 0real ==> (v(forces::energy(ps.push(p), ps.len() + 1)) - v(
            forces::energy(ps, ps.len()),
        )) * 2real * v(p.inv_mass) == arrow(v, p.vel).square(),
{
    lemma_energy_of_the_first(ps, p, ps.len());
    reals::lemma_vectors(v, p.vel, p.vel, p.inv_mass);
    lemma_half(v);
    if v(p.inv_mass) != 0real {
        let (w, q) = (v(p.inv_mass), arrow(v, p.vel).square());
        let m = 1real / w;
        let half = v(R::decimal(5, 1));
        reals::lemma_quotient(1real, w);
        let e = v(forces::energy(ps.push(p), ps.len() + 1)) - v(forces::energy(ps, ps.len()));
        assert(e == (half * m) * q);
        reals::lemma_sum_times(half, half, m);
        reals::lemma_sum_times(half * m, half * m, q);
        reals::lemma_trivial_factors(m);
        assert(e + e == m * q);
        reals::lemma_factors(m, q, w);
        reals::lemma_trivial_factors(q);
        reals::lemma_sum_times(m, m, w);
    }
}

proof fn lemma_energy_of_the_first<R: Real>(
    ps: Seq<SoftParticle<R>>,
    p: SoftParticle<R>,
    n: nat,
)
    requires
        n <= ps.len(),
    ensures
        forces::energy(ps.push(p), n) == forces::energy(ps, n),
    decreases n,
{
    if n > 0 {
        lemma_energy_of_the_first(ps, p, (n - 1) as nat);
    }
}

/// Whether nothing but gravity acts on the particles of a body.
pub open spec fn falls_freely<R: Real>(v: spec_fn(R) -> real, s: SoftState<R>) -> bool {
    &&& s.springs.len() == 0
    &&& s.distance_constraints.len() == 0
    &&& s.tetrahedra.len() == 0
    &&& s.pressure is None
    &&& s.wind is None
    &&& s.self_collision is None
    &&& v(s.damping) == 0real
    &&& !s.sleeping
    &&& !s.collide
    &&& s.tear_strain is None
    &&& s.plasticity is None
}

/// Whether a body is another one with its particles moved.
spec fn moved_on<R>(s: SoftState<R>, t: SoftState<R>, i: int) -> bool {
    &&& t == (SoftState { particles: t.particles, ..s })
    &&& t.particles.len() == s.particles.len()
    &&& t.particles[i].bound_body == s.particles[i].bound_body
    &&& t.particles[i].inv_mass == s.particles[i].inv_mass
}

/// A constraint solver without constraints leaves the predicted particles.
proof fn lemma_nothing_to_project<R: Real>(s: SoftState<R>, dt: R, n: nat)
    requires
        s.distance_constraints.len() == 0,
        s.tetrahedra.len() == 0,
        s.self_collision is None,
    ensures
        s.projected(dt, n).particles == s.predicted(dt),
    decreases n,
{
    if n > 0 {
        lemma_nothing_to_project(s, dt, (n - 1) as nat);
    }
}

/// One substep of a body that falls freely.
proof fn lemma_substep_falls<R: Real>(v: spec_fn(R) -> real, s: SoftState<R>, dt: R, i: int)
    requires
        unrounded(v),
        v(dt) != 0real,
        falls_freely(v, s),
        s.solver is Xpbd ==> s.solver->iterations > 0,
        0 <= i < s.particles.len(),
        s.particles[i].bound_body is None,
        v(s.particles[i].inv_mass) != 0real,
    ensures
        moved_on(s, s.substepped(dt), i),
        arrow(v, s.substepped(dt).particles[i].vel) == arrow(v, s.particles[i].vel).plus(
            arrow(v, s.gravity).times(v(dt)),
        ),
{
    let p = s.particles[i];
    let g = arrow(v, s.gravity);
    let zero = Vector::<R>::spec_zero();
    reals::lemma_vectors(v, zero, zero, dt);
    reals::lemma_trivial_factors(v(p.inv_mass));
    assert(s.pressure_forces()[i] == zero);
    assert(g.plus(Arrow::none()) == g);
    assert(Arrow::none().times(v(p.inv_mass)) == Arrow::none());
    let q = s.substepped(dt).particles[i];
    if s.solver is MassSpring {
        assert(s.spring_forces()[i] == zero);
        lemma_motion_follows_forces(v, s, dt, i);
        let x = arrow(v, p.vel).plus(g.times(v(dt)));
        reals::lemma_trivial_factors(x.x);
        reals::lemma_trivial_factors(x.y);
        reals::lemma_trivial_factors(x.z);
    } else {
        let n = (s.solver->iterations) as nat;
        lemma_nothing_to_project(s, dt, n);
        lemma_velocities_are_recovered(v, s, dt, i);
        lemma_prediction_follows_accelerations(v, p, s.gravity, s.wind, zero, dt);
        let ahead = solver::predicted(p, s.gravity, s.wind, zero, dt);
        assert(s.projected(dt, n).particles[i] == ahead);
        assert(q == solver::recovered(ahead, p.pos, R::one().sub(s.damping), dt));
        let way = arrow(v, ahead.vel).times(v(dt));
        reals::lemma_trivial_factors(way.x);
        reals::lemma_trivial_factors(way.y);
        reals::lemma_trivial_factors(way.z);
        let (a, b) = (arrow(v, q.vel), arrow(v, ahead.vel));
        reals::lemma_cancel(a.x, b.x, v(dt));
        reals::lemma_cancel(a.y, b.y, v(dt));
        reals::lemma_cancel(a.z, b.z, v(dt));
    }
}

proof fn lemma_substeps_fall<R: Real>(
    v: spec_fn(R) -> real,
    s: SoftState<R>,
    dt: R,
    i: int,
    n: nat,
)
    requires
        unrounded(v),
        v(dt) != 0real,
        falls_freely(v, s),
        s.solver is Xpbd ==> s.solver->iterations > 0,
        0 <= i < s.particles.len(),
        s.particles[i].bound_body is None,
        v(s.particles[i].inv_mass) != 0real,
    ensures
        moved_on(s, s.substeps_taken(dt, n), i),
        arrow(v, s.substeps_taken(dt, n).particles[i].vel) == arrow(v, s.particles[i].vel).plus(
            arrow(v, s.gravity).times(v(dt) * (n as int) as real),
        ),
    decreases n,
{
    let g = arrow(v, s.gravity);
    let h = v(dt);
    if n == 0 {
        reals::lemma_trivial_factors(h);
        reals::lemma_trivial_factors(g.x);
        reals::lemma_trivial_factors(g.y);
        reals::lemma_trivial_factors(g.z);
        assert(g.times(0real) == Arrow::none());
    } else {
        lemma_substeps_fall(v, s, dt, i, (n - 1) as nat);
        let before = s.substeps_taken(dt, (n - 1) as nat);
        lemma_substep_falls(v, before, dt, i);
        let m = ((n - 1) as int) as real;
        assert((n as int) as real == m + 1real);
        reals::lemma_sum_times(m, 1real, h);
        reals::lemma_trivial_factors(h);
        reals::lemma_sum_times(h * m, h, g.x);
        reals::lemma_sum_times(h * m, h, g.y);
        reals::lemma_sum_times(h * m, h, g.z);
    }
}

/// A body on which nothing but gravity acts falls: in a step the velocity of each free particle
/// changes by gravity over the time of the step, into however many parts it is split.
pub proof fn lemma_free_body_falls<R: Real>(
    v: spec_fn(R) -> real,
    s: SoftState<R>,
    dt: R,
    i: int,
)
    requires
        unrounded(v),
        v(dt) != 0real,
        falls_freely(v, s),
        s.solver is Xpbd ==> s.solver->iterations > 0,
        0 <= i < s.particles.len(),
        s.particles[i].bound_body is None,
        v(s.particles[i].inv_mass) != 0real,
    ensures
        arrow(v, s.stepped(dt).particles[i].vel) == arrow(v, s.particles[i].vel).plus(
            arrow(v, s.gravity).times(v(dt)),
        ),
{
    let n = s.parts();
    let part = dt.div(R::from_usize(n));
    let m = (n as int) as real;
    assert(m > 0real);
    reals::lemma_quotient(v(dt), m);
    assert(v(part) == v(dt) / m);
    reals::lemma_trivial_factors(m);
    lemma_substeps_fall(v, s, part, i, n as nat);
}

} // verus!
