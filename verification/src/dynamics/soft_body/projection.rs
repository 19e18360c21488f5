//! What the projections of a soft body are for, where arithmetic does not round.
use vstd::prelude::*;
use crate::dynamics::soft_body::constraints;
use crate::dynamics::soft_body::model;
use crate::dynamics::soft_body::self_collision;
use crate::dynamics::soft_body::solver;
use crate::math::Vector;
use crate::reals;
use crate::reals::{arrow, unrounded, Arrow};
use crate::scalar::Real;

verus! {

/// The arrow from one particle to another.
pub open spec fn between<R: Real>(
    v: spec_fn(R) -> real,
    ps: Seq<model::SoftParticle<R>>,
    a: int,
    b: int,
) -> Arrow {
    arrow(v, ps[a].pos).minus(arrow(v, ps[b].pos))
}

/// How far a particle went.
pub open spec fn shift<R: Real>(
    v: spec_fn(R) -> real,
    ps: Seq<model::SoftParticle<R>>,
    qs: Seq<model::SoftParticle<R>>,
    i: int,
) -> Arrow {
    arrow(v, qs[i].pos).minus(arrow(v, ps[i].pos))
}

/// One coordinate of an edge whose ends move along it.
proof fn lemma_ends_move(x: real, l: real, wa: real, wb: real, dl: real, t: real)
    requires
        l != 0real,
        t == l + (wa + wb) * dl,
    ensures
        (x + (x / l) * (wa * dl) + (x / l) * (wb * dl)) * l == x * t,
        ((x / l) * (wa * dl)) * wb + (-((x / l) * (wb * dl))) * wa == 0real,
{
    let n = x / l;
    reals::lemma_quotient(x, l);
    let (p, q) = (wa * dl, wb * dl);
    reals::lemma_sum_times(x, n * p + n * q, l);
    reals::lemma_sum_times(p, q, n);
    reals::lemma_sum_times(wa, wb, dl);
    reals::lemma_factors(n, p + q, l);
    reals::lemma_sum_times(l, p + q, x);
    reals::lemma_factors(n, p, wb);
    reals::lemma_factors(n, q, wa);
    reals::lemma_negative(n * q, wa);
    reals::lemma_factors(wa, dl, wb);
    reals::lemma_factors(wb, dl, wa);
    reals::lemma_sum_times(wa, 0real, wb);
    reals::lemma_sum_times(dl, 0real, wa * wb);
    reals::lemma_factors(wa, wb, dl);
}

/// How far an end of an edge moves along it.
proof fn lemma_end_shift<R: Real>(
    v: spec_fn(R) -> real,
    delta: Vector<R>,
    len: R,
    w: R,
    d_lambda: R,
    d: Arrow,
    l: real,
    dl: real,
)
    requires
        unrounded(v),
        arrow(v, delta) == d,
        v(len) == l,
        l != 0real,
        v(d_lambda) == dl,
    ensures
        arrow(v, delta.div(len).scale(w.mul(d_lambda))) == (Arrow {
            x: (d.x / l) * (v(w) * dl),
            y: (d.y / l) * (v(w) * dl),
            z: (d.z / l) * (v(w) * dl),
        }),
        v(w) == 0real ==> (d.x / l) * (v(w) * dl) == 0real && (d.y / l) * (v(w) * dl) == 0real && (
        d.z / l) * (v(w) * dl) == 0real,
{
    if v(w) == 0real {
        reals::lemma_trivial_factors(dl);
        reals::lemma_trivial_factors(d.x / l);
        reals::lemma_trivial_factors(d.y / l);
        reals::lemma_trivial_factors(d.z / l);
    }
}

/// Projecting an edge brings it to its rest length less what the compliance gives: with the
/// multiplier that comes back, its length is off the rest length by exactly the compliance times
/// the multiplier. Its ends stay on one line, the common centre by their weights stays, and
/// nothing else moves.
pub proof fn lemma_edge_meets_its_compliance<R: Real>(
    v: spec_fn(R) -> real,
    ps: Seq<model::SoftParticle<R>>,
    a: int,
    b: int,
    rest: R,
    alpha: R,
    w: Seq<R>,
    lambda: R,
    l: real,
)
    requires
        unrounded(v),
        0 <= a < ps.len(),
        0 <= b < ps.len(),
        a != b,
        l > 0real,
        l * l == between(v, ps, a, b).square(),
        v(w[a]) + v(w[b]) != 0real,
        v(w[a]) + v(w[b]) + v(alpha) != 0real,
    ensures
        ({
            let out = constraints::distance_projected(ps, a, b, rest, alpha, w, lambda);
            let length = v(rest) - v(alpha) * v(out.lambda);
            let before = between(v, ps, a, b);
            let after = between(v, out.particles, a, b);
            &&& out.particles.len() == ps.len()
            &&& after.times(l) == before.times(length)
            &&& after.square() == length * length
            &&& (v(out.lambda) - v(lambda)) * (v(w[a]) + v(w[b]) + v(alpha)) == v(rest) - l
                - v(alpha) * v(lambda)
            &&& shift(v, ps, out.particles, a).times(v(w[b])).plus(
                shift(v, ps, out.particles, b).times(v(w[a])),
            ) == Arrow::none()
            &&& forall|i: int|
                0 <= i < ps.len() && i != a && i != b ==> #[trigger] out.particles[i] == ps[i]
            &&& forall|i: int|
                0 <= i < ps.len() ==> #[trigger] out.particles[i] == (model::SoftParticle {
                    pos: out.particles[i].pos,
                    ..ps[i]
                })
        }),
{
    let out = constraints::distance_projected(ps, a, b, rest, alpha, w, lambda);
    let delta = ps[a].pos.sub(ps[b].pos);
    let len = delta.length();
    let d = between(v, ps, a, b);
    reals::lemma_vectors(v, ps[a].pos, ps[b].pos, len);
    reals::lemma_vectors(v, delta, delta, len);
    reals::lemma_same_square(v(len), l);
    let (wa, wb) = (v(w[a]), v(w[b]));
    let sum = wa + wb + v(alpha);
    let dl = ((-(l - v(rest))) - v(alpha) * v(lambda)) / sum;
    let d_lambda = len.sub(rest).neg().sub(alpha.mul(lambda)).div(w[a].add(w[b]).add(alpha));
    assert(v(d_lambda) == dl);
    reals::lemma_quotient((-(l - v(rest))) - v(alpha) * v(lambda), sum);
    let t = v(rest) - v(alpha) * v(out.lambda);
    assert(v(out.lambda) == v(lambda) + dl);
    assert(t == l + (wa + wb) * dl) by {
        reals::lemma_sum_times(v(lambda), dl, v(alpha));
        reals::lemma_sum_times(wa + wb, v(alpha), dl);
    }
    let n = delta.div(len);
    let sa = shift(v, ps, out.particles, a);
    let sb = shift(v, ps, out.particles, b);
    lemma_end_shift(v, delta, len, w[a], d_lambda, d, l, dl);
    lemma_end_shift(v, delta, len, w[b], d_lambda, d, l, dl);
    reals::lemma_vectors(v, ps[a].pos, n.scale(w[a].mul(d_lambda)), rest);
    reals::lemma_vectors(v, ps[b].pos, n.scale(w[b].mul(d_lambda)), rest);
    assert(sa == (Arrow {
        x: (d.x / l) * (wa * dl),
        y: (d.y / l) * (wa * dl),
        z: (d.z / l) * (wa * dl),
    }));
    assert(sb == (Arrow {
        x: -((d.x / l) * (wb * dl)),
        y: -((d.y / l) * (wb * dl)),
        z: -((d.z / l) * (wb * dl)),
    }));
    lemma_ends_move(d.x, l, wa, wb, dl, t);
    lemma_ends_move(d.y, l, wa, wb, dl, t);
    lemma_ends_move(d.z, l, wa, wb, dl, t);
    let after = between(v, out.particles, a, b);
    assert(after == d.plus(sa).minus(sb));
    lemma_scaled_square(after, d, l, t);
}

/// The square of an arrow along another.
proof fn lemma_scaled_square(a: Arrow, d: Arrow, l: real, t: real)
    requires
        l > 0real,
        l * l == d.square(),
        a.times(l) == d.times(t),
    ensures
        a.square() == t * t,
{
    reals::lemma_inner_times(a, l, a.times(l));
    reals::lemma_inner_times(a, l, a);
    reals::lemma_inner_times(d, t, d.times(t));
    reals::lemma_inner_times(d, t, d);
    let (p, q) = (a.square(), d.square());
    reals::lemma_factors(p, l, l);
    reals::lemma_factors(q, t, t);
    reals::lemma_product_sign(l, l);
    reals::lemma_sum_times(l * l, 0real, t * t);
    reals::lemma_cancel(p, t * t, l * l);
}

/// An edge that is off its rest length by what the compliance gives is settled: projecting it
/// moves nothing, and leaves the multiplier.
pub proof fn lemma_settled_edge_stays<R: Real>(
    v: spec_fn(R) -> real,
    ps: Seq<model::SoftParticle<R>>,
    a: int,
    b: int,
    rest: R,
    alpha: R,
    w: Seq<R>,
    lambda: R,
    l: real,
)
    requires
        unrounded(v),
        0 <= a < ps.len(),
        0 <= b < ps.len(),
        a != b,
        l > 0real,
        l * l == between(v, ps, a, b).square(),
        v(w[a]) + v(w[b]) != 0real,
        v(w[a]) + v(w[b]) + v(alpha) != 0real,
        (l - v(rest)) + v(alpha) * v(lambda) == 0real,
    ensures
        ({
            let out = constraints::distance_projected(ps, a, b, rest, alpha, w, lambda);
            &&& out.particles.len() == ps.len()
            &&& v(out.lambda) == v(lambda)
            &&& forall|i: int|
                0 <= i < ps.len() ==> arrow(v, #[trigger] out.particles[i].pos) == arrow(
                    v,
                    ps[i].pos,
                )
        }),
{
    let out = constraints::distance_projected(ps, a, b, rest, alpha, w, lambda);
    lemma_edge_meets_its_compliance(v, ps, a, b, rest, alpha, w, lambda, l);
    let (wa, wb) = (v(w[a]), v(w[b]));
    let sum = wa + wb + v(alpha);
    let dl = v(out.lambda) - v(lambda);
    reals::lemma_trivial_factors(sum);
    reals::lemma_cancel(dl, 0real, sum);
    let before = between(v, ps, a, b);
    let after = between(v, out.particles, a, b);
    assert(v(rest) - v(alpha) * v(out.lambda) == l);
    assert(after.times(l) == before.times(l));
    assert(after.x == before.x && after.y == before.y && after.z == before.z) by {
        reals::lemma_cancel(after.x, before.x, l);
        reals::lemma_cancel(after.y, before.y, l);
        reals::lemma_cancel(after.z, before.z, l);
    }
    let sa = shift(v, ps, out.particles, a);
    let sb = shift(v, ps, out.particles, b);
    lemma_no_shift(sa.x, sb.x, wa, wb);
    lemma_no_shift(sa.y, sb.y, wa, wb);
    lemma_no_shift(sa.z, sb.z, wa, wb);
    assert forall|i: int| 0 <= i < ps.len() implies arrow(v, #[trigger] out.particles[i].pos)
        == arrow(v, ps[i].pos) by {
        if i != a && i != b {
            assert(out.particles[i] == ps[i]);
        }
    }
}

/// Two ends that move alike and keep their centre do not move.
proof fn lemma_no_shift(a: real, b: real, wa: real, wb: real)
    requires
        a == b,
        a * wb + b * wa == 0real,
        wa + wb != 0real,
    ensures
        a == 0real,
        b == 0real,
{
    reals::lemma_sum_times(wb, wa, a);
    reals::lemma_trivial_factors(wa + wb);
    reals::lemma_cancel(a, 0real, wa + wb);
}

/// Whether the particles are at the same places.
pub open spec fn same_places<R: Real>(
    v: spec_fn(R) -> real,
    ps: Seq<model::SoftParticle<R>>,
    qs: Seq<model::SoftParticle<R>>,
) -> bool {
    &&& ps.len() == qs.len()
    &&& forall|i: int|
        #![trigger qs[i]]
        0 <= i < ps.len() ==> arrow(v, qs[i].pos) == arrow(v, ps[i].pos)
}

/// Whether a body is one edge between two of its particles that can be solved, with one
/// compliance for stretch and compression.
pub open spec fn is_one_edge<R: Real>(
    v: spec_fn(R) -> real,
    s: model::SoftState<R>,
    dt: R,
) -> bool {
    &&& s.distance_constraints.len() == 1
    &&& s.tetrahedra.len() == 0
    &&& s.self_collision is None
    &&& {
        let c = s.distance_constraints[0];
        let w = self_collision::weights(s.particles);
        &&& c.a != c.b
        &&& c.a < s.particles.len()
        &&& c.b < s.particles.len()
        &&& v(c.compression) == v(c.compliance)
        &&& v(c.compliance) >= 0real
        &&& v(c.rest) > 0real
        &&& v(dt) != 0real
        &&& v(w[c.a as int]) >= 0real
        &&& v(w[c.b as int]) >= 0real
        &&& v(w[c.a as int]) + v(w[c.b as int]) > 0real
        &&& between(v, s.predicted(dt), c.a as int, c.b as int) != Arrow::none()
    }
}

/// Whether the edge of a body is off its rest length by what its compliance gives.
pub open spec fn edge_settled<R: Real>(
    v: spec_fn(R) -> real,
    c: model::DistanceConstraint<R>,
    dt: R,
    ps: Seq<model::SoftParticle<R>>,
    lambda: R,
) -> bool {
    let length = v(c.rest) - v(c.compliance) / (v(dt) * v(dt)) * v(lambda);
    &&& length > 0real
    &&& between(v, ps, c.a as int, c.b as int).square() == length * length
}

proof fn lemma_positive_length(l: real, rest: real, w: real, al: real, dl: real)
    requires
        l > 0real,
        rest > 0real,
        w > 0real,
        al >= 0real,
        dl * (w + al) == rest - l,
    ensures
        rest - al * dl > 0real,
{
    let t = rest - al * dl;
    reals::lemma_sum_times(rest, al * dl, w + al);
    reals::lemma_sum_times(w, al, rest);
    reals::lemma_factors(al, dl, w + al);
    reals::lemma_sum_times(rest, l, al);
    reals::lemma_product_sign(rest, w);
    reals::lemma_product_sign(al, l);
    if t <= 0real {
        reals::lemma_product_sign(-t, w + al);
        reals::lemma_negative(t, w + al);
    }
}

proof fn lemma_edge_swept<R: Real>(
    v: spec_fn(R) -> real,
    s: model::SoftState<R>,
    dt: R,
    before: solver::Sweep<R>,
)
    requires
        s.distance_constraints.len() == 1,
        s.tetrahedra.len() == 0,
        s.self_collision is None,
        before.edge_lambdas.len() == 1,
    ensures
        ({
            let c = s.distance_constraints[0];
            let (p, q) = (before.particles[c.a as int], before.particles[c.b as int]);
            let len = p.pos.sub(q.pos).length();
            let r = constraints::distance_projected(
                before.particles,
                c.a as int,
                c.b as int,
                c.rest,
                solver::edge_alpha(c, len, dt),
                self_collision::weights(s.particles),
                before.edge_lambdas[0],
            );
            let after = s.swept(before, dt);
            &&& after.particles == r.particles
            &&& after.edge_lambdas.len() == 1
            &&& after.edge_lambdas[0] == r.lambda
        }),
{
    reveal_with_fuel(solver::edges_swept, 2);
    reveal_with_fuel(solver::volumes_swept, 2);
}

/// A body of one edge settles in the first round: however often its constraints are projected, the
/// edge is off its rest length by its compliance over the square of the time step times the
/// multiplier, and the particles are where the first round put them.
pub proof fn lemma_one_edge_settles<R: Real>(
    v: spec_fn(R) -> real,
    s: model::SoftState<R>,
    dt: R,
    n: nat,
)
    requires
        unrounded(v),
        is_one_edge(v, s, dt),
        n >= 1,
    ensures
        s.projected(dt, n).particles.len() == s.particles.len(),
        s.projected(dt, n).edge_lambdas.len() == 1,
        edge_settled(
            v,
            s.distance_constraints[0],
            dt,
            s.projected(dt, n).particles,
            s.projected(dt, n).edge_lambdas[0],
        ),
        v(s.projected(dt, n).edge_lambdas[0]) == v(s.projected(dt, 1).edge_lambdas[0]),
        same_places(v, s.projected(dt, 1).particles, s.projected(dt, n).particles),
    decreases n,
{
    let c = s.distance_constraints[0];
    let (a, b) = (c.a as int, c.b as int);
    let w = self_collision::weights(s.particles);
    let al = v(c.compliance) / (v(dt) * v(dt));
    let sq = v(dt) * v(dt);
    reals::lemma_positive_square(v(dt));
    reals::lemma_quotient(v(c.compliance), sq);
    if al < 0real {
        reals::lemma_product_sign(-al, sq);
        reals::lemma_negative(al, sq);
    }
    let start = s.projected(dt, 0);
    let before = s.projected(dt, (n - 1) as nat);
    reveal_with_fuel(model::SoftState::projected, 2);
    if n > 1 {
        lemma_one_edge_settles(v, s, dt, (n - 1) as nat);
    }
    let len = before.particles[a].pos.sub(before.particles[b].pos).length();
    let alpha = solver::edge_alpha(c, len, dt);
    assert(v(alpha) == al);
    lemma_edge_swept(v, s, dt, before);
    let d = between(v, before.particles, a, b);
    let lambda = before.edge_lambdas[0];
    if n == 1 {
        let l = v(len);
        reals::lemma_vectors(v, before.particles[a].pos, before.particles[b].pos, len);
        let delta = before.particles[a].pos.sub(before.particles[b].pos);
        reals::lemma_vectors(v, delta, delta, len);
        reals::lemma_square(d);
        assert(l > 0real) by {
            if l == 0real {
                reals::lemma_trivial_factors(l);
            }
        }
        lemma_edge_meets_its_compliance(v, before.particles, a, b, c.rest, alpha, w, lambda, l);
        lemma_positive_length(
            l,
            v(c.rest),
            v(w[a]) + v(w[b]),
            al,
            v(s.projected(dt, 1).edge_lambdas[0]),
        );
    } else {
        let l = v(c.rest) - al * v(lambda);
        lemma_settled_edge_stays(v, before.particles, a, b, c.rest, alpha, w, lambda, l);
        let after = s.projected(dt, n);
        assert(arrow(v, after.particles[a].pos) == arrow(v, before.particles[a].pos));
        assert(arrow(v, after.particles[b].pos) == arrow(v, before.particles[b].pos));
        assert(between(v, after.particles, a, b) == d);
        assert forall|i: int| 0 <= i < after.particles.len() implies arrow(
            v,
            (#[trigger] after.particles[i]).pos,
        ) == arrow(v, s.projected(dt, 1).particles[i].pos) by {
            let once = s.projected(dt, 1);
            assert(arrow(v, before.particles[i].pos) == arrow(v, once.particles[i].pos));
        }
    }
}

/// A volume element that is off its rest volume by what the compliance gives is settled:
/// projecting it moves nothing, and leaves the multiplier.
pub proof fn lemma_settled_volume_stays<R: Real>(
    v: spec_fn(R) -> real,
    ps: Seq<model::SoftParticle<R>>,
    t: [u32; 4],
    rest: R,
    alpha: R,
    w: Seq<R>,
    lambda: R,
)
    requires
        unrounded(v),
        model::tetra_valid(t, ps.len()),
        volume_of(v, ps, t) - 6real * v(rest) + 6real * (v(alpha) * v(lambda)) == 0real,
    ensures
        same_places(
            v,
            ps,
            constraints::volume_projected(ps, t, rest, alpha, w, lambda).particles,
        ),
        v(constraints::volume_projected(ps, t, rest, alpha, w, lambda).lambda) == v(lambda),
{
    let p0 = ps[t[0] as int].pos;
    let e1 = ps[t[1] as int].pos.sub(p0);
    let e2 = ps[t[2] as int].pos.sub(p0);
    let e3 = ps[t[3] as int].pos.sub(p0);
    reals::lemma_vectors(v, e1, e2, rest);
    reals::lemma_vectors(v, e1.cross(e2), e3, rest);
    let six = R::decimal(6, 0);
    assert(v(six) == 6real) by {
        assert(crate::fixed::pow10(0) == 1);
        reals::lemma_quotient_is(6real, 1real, 6real);
    }
    let off = e1.cross(e2).dot(e3).div(six).sub(rest);
    reals::lemma_quotient(v(e1.cross(e2).dot(e3)), 6real);
    assert(v(off) == -(v(alpha) * v(lambda)));
    let out = constraints::volume_projected(ps, t, rest, alpha, w, lambda);
    let top = off.neg().sub(alpha.mul(lambda));
    assert(v(top) == 0real);
    let g0 = constraints::volume_gradient(e1, e2, e3, 0);
    let g1 = constraints::volume_gradient(e1, e2, e3, 1);
    let g2 = constraints::volume_gradient(e1, e2, e3, 2);
    let g3 = constraints::volume_gradient(e1, e2, e3, 3);
    let (w0, w1, w2, w3) = (w[t[0] as int], w[t[1] as int], w[t[2] as int], w[t[3] as int]);
    let denom = alpha.add(w0.mul(g0.dot(g0))).add(w1.mul(g1.dot(g1))).add(w2.mul(g2.dot(g2))).add(
        w3.mul(g3.dot(g3)),
    );
    if v(denom) != 0real {
        let d = top.div(denom);
        reals::lemma_quotient_is(0real, v(denom), 0real);
        let q0 = constraints::nudged(ps, t[0] as int, g0, w0, d);
        let q1 = constraints::nudged(q0, t[1] as int, g1, w1, d);
        let q2 = constraints::nudged(q1, t[2] as int, g2, w2, d);
        let q3 = constraints::nudged(q2, t[3] as int, g3, w3, d);
        lemma_nudged_nowhere(v, ps, t[0] as int, g0, w0, d);
        lemma_nudged_nowhere(v, q0, t[1] as int, g1, w1, d);
        lemma_nudged_nowhere(v, q1, t[2] as int, g2, w2, d);
        lemma_nudged_nowhere(v, q2, t[3] as int, g3, w3, d);
        assert(same_places(v, ps, q1));
        assert(same_places(v, ps, q2));
        assert(same_places(v, ps, q3));
        assert(out.particles == q3);
    }
}

proof fn lemma_nudged_nowhere<R: Real>(
    v: spec_fn(R) -> real,
    ps: Seq<model::SoftParticle<R>>,
    i: int,
    g: Vector<R>,
    w: R,
    d: R,
)
    requires
        unrounded(v),
        0 <= i < ps.len(),
        v(d) == 0real,
    ensures
        same_places(v, ps, constraints::nudged(ps, i, g, w, d)),
{
    let z = v(w) * v(d);
    reals::lemma_trivial_factors(v(w));
    reals::lemma_trivial_factors(v(g.x));
    reals::lemma_trivial_factors(v(g.y));
    reals::lemma_trivial_factors(v(g.z));
    assert(v(g.x) * z == 0real && v(g.y) * z == 0real && v(g.z) * z == 0real);
}

/// Six times the signed volume of an element: the box that its edges span.
pub open spec fn volume_of<R: Real>(
    v: spec_fn(R) -> real,
    ps: Seq<model::SoftParticle<R>>,
    t: [u32; 4],
) -> real {
    between(v, ps, t[1] as int, t[0] as int).across(
        between(v, ps, t[2] as int, t[0] as int),
    ).inner(between(v, ps, t[3] as int, t[0] as int))
}

} // verus!
