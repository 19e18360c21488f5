//! What tearing, creep, refinement and anchoring do to soft bodies, where arithmetic does not
//! round.
use vstd::prelude::*;
use crate::dynamics::rigid_body;
use crate::dynamics::rigid_body::SlotModel;
use crate::dynamics::soft_body::between::{Meeting, PairRule};
use crate::dynamics::soft_body::bodies;
use crate::dynamics::soft_body::constraints;
use crate::dynamics::soft_body::model::{PlasticityParams, SoftParticle, SoftState};
use crate::dynamics::soft_body::refine;
use crate::dynamics::soft_body::settings;
use crate::dynamics::soft_body::topology;
use crate::fixed;
use crate::math::Vector;
use crate::reals;
use crate::reals::{arrow, turn, unrounded, Arrow};
use crate::scalar::Real;

verus! {

/// The distance between two particles, from either side.
pub proof fn lemma_gap_is_distance<R: Real>(
    v: spec_fn(R) -> real,
    a: SoftParticle<R>,
    b: SoftParticle<R>,
)
    requires
        unrounded(v),
    ensures
        v(topology::gap(a, b)) >= 0real,
        v(topology::gap(a, b)) * v(topology::gap(a, b)) == arrow(v, a.pos).minus(
            arrow(v, b.pos),
        ).square(),
        v(topology::gap(a, b)) == v(topology::gap(b, a)),
{
    let (x, y) = (b.pos.sub(a.pos), a.pos.sub(b.pos));
    let s = R::one();
    reals::lemma_vectors(v, b.pos, a.pos, s);
    reals::lemma_vectors(v, a.pos, b.pos, s);
    reals::lemma_vectors(v, x, x, s);
    reals::lemma_vectors(v, y, y, s);
    let r = arrow(v, y);
    reals::lemma_negative(r.x, r.x);
    reals::lemma_negative(r.y, r.y);
    reals::lemma_negative(r.z, r.z);
    reals::lemma_negative(-r.x, r.x);
    reals::lemma_negative(-r.y, r.y);
    reals::lemma_negative(-r.z, r.z);
    reals::lemma_same_square(v(x.length()), v(y.length()));
}

/// An edge holds up to its limit: it tears where its elongation is beyond that share of its rest
/// length.
pub proof fn lemma_edge_holds_up_to_its_limit<R: Real>(
    v: spec_fn(R) -> real,
    ps: Seq<SoftParticle<R>>,
    a: usize,
    b: usize,
    rest: R,
    limit: R,
    l: real,
)
    requires
        unrounded(v),
        a < ps.len(),
        b < ps.len(),
        v(rest) > 0real,
        l >= 0real,
        l * l == arrow(v, ps[a as int].pos).minus(arrow(v, ps[b as int].pos)).square(),
    ensures
        topology::holds(ps, a, b, rest, limit) <==> l - v(rest) <= v(limit) * v(rest),
{
    let (p, q) = (ps[a as int], ps[b as int]);
    lemma_gap_is_distance(v, p, q);
    reals::lemma_same_square(v(topology::gap(p, q)), l);
    lemma_share_of(l - v(rest), v(rest), v(limit));
}

/// Comparing a quotient.
proof fn lemma_share_of(x: real, r: real, m: real)
    requires
        r > 0real,
    ensures
        x / r <= m <==> x <= m * r,
{
    let q = x / r;
    reals::lemma_quotient(x, r);
    reals::lemma_sum_times(m, q, r);
    if q <= m {
        reals::lemma_product_sign(m - q, r);
    } else {
        reals::lemma_product_sign(q - m, r);
        reals::lemma_sum_times(q, m, r);
    }
}

/// An edge creeps where its length is off its rest length by more than the yield share: its rest
/// length takes over the creep share of the difference. It stays where it is not.
pub proof fn lemma_creep_takes_its_share<R: Real>(
    v: spec_fn(R) -> real,
    ps: Seq<SoftParticle<R>>,
    a: usize,
    b: usize,
    rest: R,
    p: PlasticityParams<R>,
    l: real,
)
    requires
        unrounded(v),
        a < ps.len(),
        b < ps.len(),
        v(rest) > 0real,
        l >= 0real,
        l * l == arrow(v, ps[a as int].pos).minus(arrow(v, ps[b as int].pos)).square(),
    ensures
        ({
            let off = l - v(rest);
            let yielded = v(p.yield_strain) * v(rest);
            let after = v(topology::crept(ps, a, b, rest, p));
            &&& off <= yielded && -off <= yielded ==> after == v(rest)
            &&& off > yielded || -off > yielded ==> after - v(rest) == v(p.creep) * off
        }),
{
    let (x, y) = (ps[a as int], ps[b as int]);
    lemma_gap_is_distance(v, x, y);
    reals::lemma_same_square(v(topology::gap(x, y)), l);
    let off = l - v(rest);
    lemma_share_of(off, v(rest), v(p.yield_strain));
    lemma_share_of(-off, v(rest), v(p.yield_strain));
    let q = off / v(rest);
    reals::lemma_quotient(off, v(rest));
    reals::lemma_negative(q, v(rest));
    reals::lemma_quotient_is(-off, v(rest), -q);
    if q < 0real {
        assert(v(topology::gap(x, y).sub(rest).div(rest).abs()) == -q);
    } else {
        assert(v(topology::gap(x, y).sub(rest).div(rest).abs()) == q);
        reals::lemma_product_sign(q, v(rest));
    }
}

proof fn lemma_quarter<R: Real>(v: spec_fn(R) -> real)
    requires
        unrounded(v),
    ensures
        v(R::decimal(25, 2)) * 4real == 1real,
{
    assert(fixed::pow10(2) == 100) by {
        reveal_with_fuel(fixed::pow10, 4);
    }
    reals::lemma_quotient(25real, 100real);
    assert(v(R::decimal(25, 2)) == 25real / 100real);
}

/// The particle that a split adds is the mean of the corners, and at rest: its place and its
/// reciprocal mass, four times over, are their sums.
pub proof fn lemma_new_particle_is_in_the_middle<R: Real>(
    v: spec_fn(R) -> real,
    a: SoftParticle<R>,
    b: SoftParticle<R>,
    c: SoftParticle<R>,
    d: SoftParticle<R>,
)
    requires
        unrounded(v),
    ensures
        ({
            let m = refine::middle(a, b, c, d);
            &&& arrow(v, m.pos).times(4real) == arrow(v, a.pos).plus(arrow(v, b.pos)).plus(
                arrow(v, c.pos),
            ).plus(arrow(v, d.pos))
            &&& v(m.inv_mass) * 4real == v(a.inv_mass) + v(b.inv_mass) + v(c.inv_mass) + v(
                d.inv_mass,
            )
            &&& arrow(v, m.vel) == Arrow::none()
            &&& m.bound_body is None
        }),
{
    let k = R::decimal(25, 2);
    lemma_quarter(v);
    reals::lemma_vectors(v, a.pos, b.pos, k);
    reals::lemma_vectors(v, a.pos.add(b.pos), c.pos, k);
    let three = a.pos.add(b.pos).add(c.pos);
    reals::lemma_vectors(v, three, d.pos, k);
    let sum = three.add(d.pos);
    reals::lemma_vectors(v, sum, sum, k);
    let s = arrow(v, sum);
    let w = v(a.inv_mass) + v(b.inv_mass) + v(c.inv_mass) + v(d.inv_mass);
    reals::lemma_factors(s.x, v(k), 4real);
    reals::lemma_factors(s.y, v(k), 4real);
    reals::lemma_factors(s.z, v(k), 4real);
    reals::lemma_factors(w, v(k), 4real);
    reals::lemma_trivial_factors(s.x);
    reals::lemma_trivial_factors(s.y);
    reals::lemma_trivial_factors(s.z);
    reals::lemma_trivial_factors(w);
}

/// The length of an edge of a tetrahedron.
spec fn edge<R: Real>(v: spec_fn(R) -> real, a: Vector<R>, b: Vector<R>) -> real {
    v(a.sub(b).length())
}

/// The longest edge of a tetrahedron is as long as one of the six, and none is longer.
pub proof fn lemma_longest_edge_is_longest<R: Real>(
    v: spec_fn(R) -> real,
    a: Vector<R>,
    b: Vector<R>,
    c: Vector<R>,
    d: Vector<R>,
)
    requires
        unrounded(v),
    ensures
        ({
            let l = v(refine::longest_edge(a, b, c, d)) * v(refine::longest_edge(a, b, c, d));
            let (p, q, r, s) = (arrow(v, a), arrow(v, b), arrow(v, c), arrow(v, d));
            &&& v(refine::longest_edge(a, b, c, d)) >= 0real
            &&& p.minus(q).square() <= l && p.minus(r).square() <= l && p.minus(s).square() <= l
            &&& q.minus(r).square() <= l && q.minus(s).square() <= l && r.minus(s).square() <= l
            &&& l == p.minus(q).square() || l == p.minus(r).square() || l == p.minus(s).square()
                || l == q.minus(r).square() || l == q.minus(s).square() || l == r.minus(s).square()
        }),
{
    let l = v(refine::longest_edge(a, b, c, d));
    lemma_edge(v, a, b, l);
    lemma_edge(v, a, c, l);
    lemma_edge(v, a, d, l);
    lemma_edge(v, b, c, l);
    lemma_edge(v, b, d, l);
    lemma_edge(v, c, d, l);
}

proof fn lemma_edge<R: Real>(v: spec_fn(R) -> real, a: Vector<R>, b: Vector<R>, l: real)
    requires
        unrounded(v),
    ensures
        edge(v, a, b) >= 0real,
        edge(v, a, b) * edge(v, a, b) == arrow(v, a).minus(arrow(v, b)).square(),
        edge(v, a, b) <= l ==> edge(v, a, b) * edge(v, a, b) <= l * l,
{
    let r = a.sub(b);
    let s = R::one();
    reals::lemma_vectors(v, a, b, s);
    reals::lemma_vectors(v, r, r, s);
    let e = edge(v, a, b);
    if e <= l {
        reals::lemma_product_sign(l - e, l);
        reals::lemma_product_sign(l - e, e);
        reals::lemma_sum_times(l, e, l);
        reals::lemma_sum_times(l, e, e);
    }
}

/// A particle that is anchored to a rigid body is taken along by it: it is at its anchor, and moves
/// as the material of the body does there.
pub proof fn lemma_anchored_particle_is_taken_along<R: Real>(
    v: spec_fn(R) -> real,
    p: SoftParticle<R>,
    slots: Seq<SlotModel<R>>,
)
    requires
        unrounded(v),
        p.bound_body is Some,
        rigid_body::body_at(slots, p.bound_body->0) is Some,
    ensures
        ({
            let rb = rigid_body::body_at(slots, p.bound_body->0)->0;
            let q = bodies::carried(p, slots);
            let at = arrow(v, q.pos);
            &&& at.minus(arrow(v, rb.position.translation)) == turn(v, rb.position.rotation).image(
                arrow(v, p.bound_local),
            )
            &&& arrow(v, q.vel).minus(arrow(v, rb.linvel)) == arrow(v, rb.angvel).across(
                at.minus(arrow(v, rb.mprops.world_com)),
            )
            &&& q.inv_mass == p.inv_mass && q.bound_body == p.bound_body && q.bound_local
                == p.bound_local
        }),
{
    let rb = rigid_body::body_at(slots, p.bound_body->0)->0;
    let q = bodies::carried(p, slots);
    let s = R::one();
    let turned = rb.position.rotation.rotate(p.bound_local);
    reals::lemma_image(v, rb.position.rotation, p.bound_local);
    reals::lemma_vectors(v, turned, rb.position.translation, s);
    let r = q.pos.sub(rb.mprops.world_com);
    reals::lemma_vectors(v, q.pos, rb.mprops.world_com, s);
    reals::lemma_vectors(v, rb.angvel, r, s);
    reals::lemma_vectors(v, rb.linvel, rb.angvel.cross(r), s);
}

/// Whether two rules say the same.
pub open spec fn same_rule<R: Real>(v: spec_fn(R) -> real, x: PairRule<R>, y: PairRule<R>) -> bool {
    &&& v(x.reach) == v(y.reach)
    &&& v(x.rest) == v(y.rest)
    &&& v(x.compliance) == v(y.compliance)
    &&& x.break_distance is Some <==> y.break_distance is Some
    &&& x.break_distance is Some ==> v(x.break_distance->0) == v(y.break_distance->0)
    &&& x.friction is Some <==> y.friction is Some
    &&& x.friction is Some ==> v(x.friction->0) == v(y.friction->0)
}

/// Two bodies meet by one rule, whichever is named first, and only where both take part. Particles
/// that collide are kept apart by the sum of two of the smaller radius, particles that cohere are
/// brought to the smaller radius.
pub proof fn lemma_bodies_meet_by_one_rule<R: Real>(
    v: spec_fn(R) -> real,
    meeting: Meeting,
    a: SoftState<R>,
    b: SoftState<R>,
    dt: R,
)
    requires
        unrounded(v),
        v(dt) != 0real,
    ensures
        meeting.rule(a, b, dt) is Some <==> meeting.rule(b, a, dt) is Some,
        meeting.rule(a, b, dt) is Some ==> same_rule(
            v,
            meeting.rule(a, b, dt)->0,
            meeting.rule(b, a, dt)->0,
        ),
        meeting is Collision && meeting.rule(a, b, dt) is Some ==> ({
            let r = meeting.rule(a, b, dt)->0;
            let (x, y) = (a.cross_collision->0, b.cross_collision->0);
            &&& a.cross_collision is Some && b.cross_collision is Some
            &&& v(r.rest) == v(r.reach)
            &&& v(r.rest) <= v(x.radius) + v(x.radius) && v(r.rest) <= v(y.radius) + v(y.radius)
            &&& v(r.rest) == v(x.radius) + v(x.radius) || v(r.rest) == v(y.radius) + v(y.radius)
            &&& v(r.compliance) * (v(dt) * v(dt)) <= v(x.stiffness) && v(r.compliance) * (v(dt) * v(
                dt,
            )) <= v(y.stiffness)
            &&& r.break_distance is None
        }),
        meeting is Cohesion && meeting.rule(a, b, dt) is Some ==> ({
            let r = meeting.rule(a, b, dt)->0;
            let (x, y) = (a.cohesion->0, b.cohesion->0);
            &&& a.cohesion is Some && b.cohesion is Some
            &&& v(r.rest) == v(r.reach)
            &&& v(r.rest) <= v(x.radius) && v(r.rest) <= v(y.radius)
            &&& v(r.rest) == v(x.radius) || v(r.rest) == v(y.radius)
            &&& v(r.compliance) * (v(dt) * v(dt)) <= v(x.stiffness) && v(r.compliance) * (v(dt) * v(
                dt,
            )) <= v(y.stiffness)
            &&& r.break_distance is Some && v(r.break_distance->0) <= v(x.break_distance) && v(
                r.break_distance->0,
            ) <= v(y.break_distance)
            &&& r.friction is None
        }),
{
    reals::lemma_two(v);
    let sq = v(dt) * v(dt);
    reals::lemma_positive_square(v(dt));
    if meeting.rule(a, b, dt) is Some {
        let (s, t) = if meeting is Collision {
            (a.cross_collision->0.stiffness, b.cross_collision->0.stiffness)
        } else {
            (a.cohesion->0.stiffness, b.cohesion->0.stiffness)
        };
        reals::lemma_quotient(v(s.min(t)), sq);
        assert(v(s.min(t)) == v(t.min(s)));
    }
}

/// What settings are accepted: positive numbers, and shares from none to all.
pub proof fn lemma_settings_are_positive_or_shares<R: Real>(v: spec_fn(R) -> real, x: R)
    requires
        unrounded(v),
    ensures
        settings::positive(x) <==> v(x) > 0real,
        settings::is_share(x) ==> 0real <= v(x) <= 1real,
        x.is_finite() && 0real <= v(x) <= 1real ==> settings::is_share(x),
{
}

/// The signed volume of a tetrahedron, six times over, is that between its three edges at the first
/// corner; exchanging two corners turns its sign.
pub proof fn lemma_signed_volume<R: Real>(
    v: spec_fn(R) -> real,
    p0: Vector<R>,
    p1: Vector<R>,
    p2: Vector<R>,
    p3: Vector<R>,
)
    requires
        unrounded(v),
    ensures
        ({
            let (e1, e2, e3) = (
                arrow(v, p1).minus(arrow(v, p0)),
                arrow(v, p2).minus(arrow(v, p0)),
                arrow(v, p3).minus(arrow(v, p0)),
            );
            v(constraints::signed_tetra_volume(p0, p1, p2, p3)) * 6real == e1.across(e2).inner(e3)
        }),
        v(constraints::signed_tetra_volume(p0, p2, p1, p3)) == -v(
            constraints::signed_tetra_volume(p0, p1, p2, p3),
        ),
{
    let six = R::decimal(6, 0);
    reals::lemma_whole(v, 6);
    let (e1, e2, e3) = (p1.sub(p0), p2.sub(p0), p3.sub(p0));
    reals::lemma_vectors(v, p1, p0, six);
    reals::lemma_vectors(v, p2, p0, six);
    reals::lemma_vectors(v, p3, p0, six);
    reals::lemma_vectors(v, e1, e2, six);
    reals::lemma_vectors(v, e2, e1, six);
    reals::lemma_vectors(v, e1.cross(e2), e3, six);
    reals::lemma_vectors(v, e2.cross(e1), e3, six);
    let (a, b) = (v(e1.cross(e2).dot(e3)), v(e2.cross(e1).dot(e3)));
    reals::lemma_quotient(a, 6real);
    reals::lemma_quotient(b, 6real);
    let (x, y) = (arrow(v, e1), arrow(v, e2));
    reals::lemma_across(x, y, y);
    let (c, z) = (y.across(x), arrow(v, e3));
    reals::lemma_inner_plus(Arrow::none(), c, z);
    reals::lemma_trivial_factors(z.x);
    reals::lemma_trivial_factors(z.y);
    reals::lemma_trivial_factors(z.z);
    assert(a == -b);
}

} // verus!
