//! Laws of soft bodies that rest on arithmetic, for the fixed-point scalar, with the rounding that
//! each allows for.
use vstd::prelude::*;
use crate::dynamics::rigid_body;
use crate::dynamics::rigid_body::{RigidBodyHandle, SlotModel};
use crate::dynamics::soft_body::bodies;
use crate::dynamics::soft_body::constraints;
use crate::dynamics::soft_body::forces;
use crate::dynamics::soft_body::model::{
    DistanceConstraint, PlasticityParams, SoftParticle, SoftState, Spring,
};
use crate::dynamics::soft_body::refine;
use crate::dynamics::soft_body::topology;
use crate::fixed;
use crate::fixed::{Fixed, MIN_MAGNITUDE, UNIT};
use crate::math::{Rotation, Vector};
use crate::scalar::Real;

verus! {

/// A coordinate in steps.
pub open spec fn coord(v: Vector<Fixed>, axis: int) -> int {
    if axis == 0 {
        v.x.raw as int
    } else if axis == 1 {
        v.y.raw as int
    } else {
        v.z.raw as int
    }
}

/// Whether every coordinate is at most `bound` in magnitude.
pub open spec fn bounded(v: Vector<Fixed>, bound: int) -> bool {
    &&& -bound <= v.x.raw <= bound
    &&& -bound <= v.y.raw <= bound
    &&& -bound <= v.z.raw <= bound
}

/// The sum of one coordinate of the first `n` vectors.
pub open spec fn coord_sum(s: Seq<Vector<Fixed>>, axis: int, n: nat) -> int
    decreases n,
{
    if n == 0 {
        0
    } else {
        coord_sum(s, axis, (n - 1) as nat) + coord(s[n - 1], axis)
    }
}

proof fn lemma_sum_update(s: Seq<Vector<Fixed>>, axis: int, n: nat, i: int, v: Vector<Fixed>)
    requires
        0 <= i < s.len(),
        n <= s.len(),
    ensures
        coord_sum(s.update(i, v), axis, n) == coord_sum(s, axis, n) + (if i < n {
            coord(v, axis) - coord(s[i], axis)
        } else {
            0
        }),
    decreases n,
{
    if n > 0 {
        lemma_sum_update(s, axis, (n - 1) as nat, i, v);
    }
}

proof fn lemma_no_sum(count: nat, axis: int, n: nat)
    requires
        n <= count,
    ensures
        coord_sum(forces::no_forces::<Fixed>(count), axis, n) == 0,
    decreases n,
{
    if n > 0 {
        lemma_no_sum(count, axis, (n - 1) as nat);
    }
}

/// Whether no spring among the first `n` pulls harder than `bound` along an axis.
pub open spec fn pulls_bounded(
    ps: Seq<SoftParticle<Fixed>>,
    springs: Seq<Spring<Fixed>>,
    bound: int,
    n: nat,
) -> bool {
    forall|k: int|
        0 <= k < n && forces::spring_acts(ps, #[trigger] springs[k]) ==> bounded(
            forces::spring_pull(ps, springs[k]),
            bound,
        )
}

proof fn lemma_spring_has_two_ends(ps: Seq<SoftParticle<Fixed>>, s: Spring<Fixed>)
    requires
        forces::spring_acts(ps, s),
    ensures
        s.a != s.b,
{
    if s.a == s.b {
        let delta = ps[s.b as int].pos.sub(ps[s.a as int].pos);
        assert(delta == Vector::<Fixed>::zero());
        assert(0 * 0 == 0);
        assert(0nat / UNIT as nat == 0);
        assert(delta.dot(delta).raw == 0);
        assert(delta.length().raw == 0);
    }
}

proof fn lemma_forces_balance(
    ps: Seq<SoftParticle<Fixed>>,
    springs: Seq<Spring<Fixed>>,
    bound: int,
    n: nat,
)
    requires
        n <= springs.len(),
        forall|i: int| 0 <= i < ps.len() ==> !(#[trigger] ps[i]).is_pinned(),
        pulls_bounded(ps, springs, bound, n),
        0 <= bound,
        n * bound <= i64::MAX,
    ensures
        forces::spring_forces(ps, springs, n).len() == ps.len(),
        forall|i: int|
            0 <= i < ps.len() ==> bounded(
                #[trigger] forces::spring_forces(ps, springs, n)[i],
                n * bound,
            ),
        forall|axis: int|
            #[trigger] coord_sum(forces::spring_forces(ps, springs, n), axis, ps.len()) == 0,
    decreases n,
{
    let out = forces::spring_forces(ps, springs, n);
    if n == 0 {
        assert forall|axis: int| #[trigger] coord_sum(out, axis, ps.len()) == 0 by {
            lemma_no_sum(ps.len(), axis, ps.len());
        }
    } else {
        let m = (n - 1) as nat;
        assert(n * bound == m * bound + bound && 0 <= m * bound) by (nonlinear_arith)
            requires
                n == m + 1,
                0 <= bound,
        ;
        lemma_forces_balance(ps, springs, bound, m);
        let before = forces::spring_forces(ps, springs, m);
        let s = springs[m as int];
        assert forall|i: int| 0 <= i < ps.len() implies bounded(before[i], m * bound) by {}
        if forces::spring_acts(ps, s) {
            lemma_spring_has_two_ends(ps, s);
            let f = forces::spring_pull(ps, s);
            let a = s.a as int;
            let b = s.b as int;
            let first = before.update(a, before[a].add(f));
            assert(!ps[a].is_pinned() && !ps[b].is_pinned());
            assert(first[b] == before[b]);
            assert(out == first.update(b, before[b].sub(f)));
            assert(bounded(before[a], m * bound) && bounded(before[b], m * bound));
            assert forall|axis: int| #[trigger] coord_sum(out, axis, ps.len()) == 0 by {
                lemma_sum_update(before, axis, ps.len(), a, before[a].add(f));
                lemma_sum_update(first, axis, ps.len(), b, before[b].sub(f));
                assert(coord_sum(before, axis, ps.len()) == 0);
            }
        }
    }
}

/// Springs between particles that can all move add no force to the body as a whole: along every
/// axis the spring forces add up to exactly nothing, as long as no force is out of range.
pub proof fn lemma_spring_forces_balance(s: SoftState<Fixed>, bound: int)
    requires
        forall|i: int| 0 <= i < s.particles.len() ==> !(#[trigger] s.particles[i]).is_pinned(),
        pulls_bounded(s.particles, s.springs, bound, s.springs.len()),
        0 <= bound,
        s.springs.len() * bound <= i64::MAX,
    ensures
        forall|axis: int|
            #[trigger] coord_sum(s.spring_forces(), axis, s.particles.len()) == 0,
{
    lemma_forces_balance(s.particles, s.springs, bound, s.springs.len());
}

/// Whether `x` lies between `a` and `b`, or on one of them.
pub open spec fn between(a: Fixed, x: Fixed, b: Fixed) -> bool {
    a.raw <= x.raw <= b.raw || b.raw <= x.raw <= a.raw
}

/// Whether the creep is a share.
pub open spec fn creep_valid(p: PlasticityParams<Fixed>) -> bool {
    0 <= p.creep.raw <= UNIT
}

proof fn lemma_crept_between(
    ps: Seq<SoftParticle<Fixed>>,
    a: usize,
    b: usize,
    rest: Fixed,
    p: PlasticityParams<Fixed>,
)
    requires
        creep_valid(p),
    ensures
        a < ps.len() && b < ps.len() ==> between(
            rest,
            topology::crept(ps, a, b, rest, p),
            topology::gap(ps[a as int], ps[b as int]),
        ),
        !(a < ps.len() && b < ps.len() && rest.raw > 0) ==> topology::crept(ps, a, b, rest, p)
            == rest,
{
    if a < ps.len() && b < ps.len() && rest.raw > 0 {
        let len = topology::gap(ps[a as int], ps[b as int]);
        assert(len.raw >= 0);
        let d = len.sub(rest);
        assert(d.raw == len.raw - rest.raw);
        let x = p.creep.raw * d.raw;
        assert(0 <= d.raw ==> 0 <= x <= UNIT * d.raw) by (nonlinear_arith)
            requires
                x == p.creep.raw * d.raw,
                0 <= p.creep.raw <= UNIT,
        ;
        assert(d.raw <= 0 ==> UNIT * d.raw <= x <= 0) by (nonlinear_arith)
            requires
                x == p.creep.raw * d.raw,
                0 <= p.creep.raw <= UNIT,
        ;
        fixed::lemma_product_truncates(p.creep, d);
    }
}

/// With a creep from zero to one a deformation keeps every new rest length between the old one and
/// the present length, and changes nothing but rest lengths.
pub proof fn lemma_creep_stays_between(s: SoftState<Fixed>)
    requires
        s.plasticity is Some ==> creep_valid(s.plasticity->0),
    ensures
        s.deformed().distance_constraints.len() == s.distance_constraints.len(),
        s.deformed().springs.len() == s.springs.len(),
        forall|k: int|
            0 <= k < s.distance_constraints.len() ==> {
                let was = s.distance_constraints[k];
                let now = #[trigger] s.deformed().distance_constraints[k];
                &&& now == (DistanceConstraint {
                    rest: now.rest,
                    ..was
                })
                &&& was.a < s.particles.len() && was.b < s.particles.len() ==> between(
                    was.rest,
                    now.rest,
                    topology::gap(s.particles[was.a as int], s.particles[was.b as int]),
                )
            },
        forall|k: int|
            0 <= k < s.springs.len() ==> {
                let was = s.springs[k];
                let now = #[trigger] s.deformed().springs[k];
                &&& now == (Spring { rest_length: now.rest_length, ..was })
                &&& was.a < s.particles.len() && was.b < s.particles.len() ==> between(
                    was.rest_length,
                    now.rest_length,
                    topology::gap(s.particles[was.a as int], s.particles[was.b as int]),
                )
            },
        s.deformed() == (SoftState {
            distance_constraints: s.deformed().distance_constraints,
            springs: s.deformed().springs,
            ..s
        }),
{
    if let Some(p) = s.plasticity {
        assert forall|k: int| 0 <= k < s.distance_constraints.len() implies {
            let was = s.distance_constraints[k];
            let now = #[trigger] s.deformed().distance_constraints[k];
            was.a < s.particles.len() && was.b < s.particles.len() ==> between(
                was.rest,
                now.rest,
                topology::gap(s.particles[was.a as int], s.particles[was.b as int]),
            )
        } by {
            let c = s.distance_constraints[k];
            lemma_crept_between(s.particles, c.a, c.b, c.rest, p);
        }
        assert forall|k: int| 0 <= k < s.springs.len() implies {
            let was = s.springs[k];
            let now = #[trigger] s.deformed().springs[k];
            was.a < s.particles.len() && was.b < s.particles.len() ==> between(
                was.rest_length,
                now.rest_length,
                topology::gap(s.particles[was.a as int], s.particles[was.b as int]),
            )
        } by {
            let c = s.springs[k];
            lemma_crept_between(s.particles, c.a, c.b, c.rest_length, p);
        }
    }
}

/// A quarter of a number is its fourth, truncated to a step towards zero.
proof fn lemma_quarter(x: Fixed)
    ensures
        fixed::truncates(x.raw as int, 4, x.mul(Fixed::decimal(25, 2)).raw as int),
{
    let q = Fixed::decimal(25, 2);
    assert(fixed::pow10(2) == 100) by {
        reveal_with_fuel(fixed::pow10, 3);
    }
    assert(q.raw == UNIT / 4);
    assert(fixed::magnitude(x.raw * q.raw) < MIN_MAGNITUDE * UNIT);
    fixed::lemma_product_truncates(x, q);
}

/// The sum of the first `n` rest volumes, in steps.
pub open spec fn rest_sum(rests: Seq<Fixed>, n: nat) -> int
    decreases n,
{
    if n == 0 {
        0
    } else {
        rest_sum(rests, (n - 1) as nat) + rests[n - 1].raw
    }
}

proof fn lemma_rest_sum_of_prefix(a: Seq<Fixed>, b: Seq<Fixed>, n: nat)
    requires
        n <= a.len(),
    ensures
        rest_sum(a + b, n) == rest_sum(a, n),
    decreases n,
{
    if n > 0 {
        lemma_rest_sum_of_prefix(a, b, (n - 1) as nat);
    }
}

/// The rest volumes of the four parts of a split element add up to its own, up to three steps.
pub proof fn lemma_parts_share_rest_volume(
    s: refine::Refined<Fixed>,
    t: [u32; 4],
    rest: Fixed,
    limit: Fixed,
)
    requires
        refine::too_long(s.particles, t, limit),
    ensures
        ({
            let r = refine::element_refined(s, t, rest, limit).rests;
            let n = s.rests.len() as int;
            &&& r.len() == n + 4
            &&& fixed::near(
                r[n].raw + r[n + 1].raw + r[n + 2].raw + r[n + 3].raw,
                rest.raw as int,
                3,
            )
        }),
{
    lemma_quarter(rest);
}

/// The rest volumes after splitting add up to those before, up to three steps for every element
/// that was split.
pub proof fn lemma_splitting_keeps_rest_volume(s: SoftState<Fixed>, limit: Fixed, n: nat)
    requires
        n <= s.tetra_rest_volumes.len(),
        n <= s.tetrahedra.len(),
    ensures
        ({
            let r = s.refined(limit, n);
            fixed::magnitude(rest_sum(r.rests, r.rests.len()) - rest_sum(s.tetra_rest_volumes, n))
                <= 3 * r.splits
        }),
    decreases n,
{
    if n > 0 {
        let m = (n - 1) as nat;
        lemma_splitting_keeps_rest_volume(s, limit, m);
        let p = s.refined(limit, m);
        let r = s.refined(limit, n);
        let rest = s.tetra_rest_volumes[m as int];
        if refine::too_long(p.particles, s.tetrahedra[m as int], limit) {
            let quarter = rest.mul(Fixed::decimal(25, 2));
            lemma_quarter(rest);
            let four = seq![quarter, quarter, quarter, quarter];
            assert(r.rests == p.rests + four);
            lemma_rest_sum_of_prefix(p.rests, four, p.rests.len());
            reveal_with_fuel(rest_sum, 5);
            assert(rest_sum(r.rests, r.rests.len()) == rest_sum(p.rests, p.rests.len()) + 4
                * quarter.raw);
        } else {
            assert(r.rests =~= p.rests + seq![rest]);
            lemma_rest_sum_of_prefix(p.rests, seq![rest], p.rests.len());
        }
    }
}

/// A vector of integers.
ghost struct Triple {
    x: int,
    y: int,
    z: int,
}

impl Triple {
    spec fn minus(self, o: Triple) -> Triple {
        Triple { x: self.x - o.x, y: self.y - o.y, z: self.z - o.z }
    }

    spec fn within(self, e: int) -> bool {
        fixed::near(self.x, 0, e) && fixed::near(self.y, 0, e) && fixed::near(self.z, 0, e)
    }
}

/// The coordinates in steps.
spec fn steps(v: Vector<Fixed>) -> Triple {
    Triple { x: v.x.raw as int, y: v.y.raw as int, z: v.z.raw as int }
}

/// The determinant of three vectors.
#[verifier::opaque]
spec fn det(u: Triple, v: Triple, w: Triple) -> int {
    (u.y * v.z - v.y * u.z) * w.x + (u.z * v.x - v.z * u.x) * w.y + (u.x * v.y - v.x * u.y) * w.z
}

proof fn lemma_bounded_product(a: Fixed, b: Fixed, p: int, q: int, k: int)
    requires
        fixed::near(a.raw as int, 0, p),
        fixed::near(b.raw as int, 0, q),
        p * q == k * UNIT,
        k < MIN_MAGNITUDE,
    ensures
        fixed::near(a.mul(b).raw * UNIT, a.raw * b.raw, UNIT as int),
        fixed::near(a.mul(b).raw as int, 0, k),
{
    let x = a.raw * b.raw;
    let y = a.raw as int;
    let z = b.raw as int;
    assert(-(p * q) <= y * z <= p * q) by (nonlinear_arith)
        requires
            -p <= y <= p,
            -q <= z <= q,
    ;
    fixed::lemma_product_truncates(a, b);
}

proof fn lemma_minor(a: Fixed, b: Fixed, c: Fixed, d: Fixed, l: int)
    requires
        1 <= l,
        6 * (l * l * l) < 0x8000_0000,
        fixed::near(a.raw as int, 0, l * UNIT),
        fixed::near(b.raw as int, 0, l * UNIT),
        fixed::near(c.raw as int, 0, l * UNIT),
        fixed::near(d.raw as int, 0, l * UNIT),
    ensures
        ({
            let r = a.mul(b).sub(c.mul(d)).raw as int;
            &&& fixed::near(r * UNIT, a.raw * b.raw - c.raw * d.raw, 2 * UNIT)
            &&& fixed::near(r, 0, 2 * (l * l) * UNIT)
        }),
{
    let p = l * UNIT;
    let k = (l * l) * UNIT;
    assert(p * p == k * UNIT) by (nonlinear_arith)
        requires
            p == l * UNIT,
            k == (l * l) * UNIT,
    ;
    assert(l * l <= l * l * l) by (nonlinear_arith)
        requires
            1 <= l,
    ;
    lemma_bounded_product(a, b, p, p, k);
    lemma_bounded_product(c, d, p, p, k);
}

/// The computed volume of a tetrahedron against the determinant of its edges.
proof fn lemma_volume_close(
    p0: Vector<Fixed>,
    p1: Vector<Fixed>,
    p2: Vector<Fixed>,
    p3: Vector<Fixed>,
    l: int,
)
    requires
        1 <= l,
        6 * (l * l * l) < 0x8000_0000,
        edge_within(p0, p1, l),
        edge_within(p0, p2, l),
        edge_within(p0, p3, l),
    ensures
        fixed::near(
            6 * (constraints::signed_tetra_volume(p0, p1, p2, p3).raw * (UNIT * UNIT)),
            det(
                steps(p1).minus(steps(p0)),
                steps(p2).minus(steps(p0)),
                steps(p3).minus(steps(p0)),
            ),
            (6 * l + 9) * (UNIT * UNIT),
        ),
{
    reveal(det);
    assert(l <= l * l * l && l * l <= l * l * l) by (nonlinear_arith)
        requires
            1 <= l,
    ;
    let u = p1.sub(p0);
    let v = p2.sub(p0);
    let w = p3.sub(p0);
    let c = u.cross(v);
    lemma_minor(u.y, v.z, v.y, u.z, l);
    lemma_minor(u.z, v.x, v.z, u.x, l);
    lemma_minor(u.x, v.y, v.x, u.y, l);
    let p = 2 * (l * l) * UNIT;
    let q = l * UNIT;
    let k = 2 * (l * l * l) * UNIT;
    assert(p * q == k * UNIT) by (nonlinear_arith)
        requires
            p == 2 * (l * l) * UNIT,
            q == l * UNIT,
            k == 2 * (l * l * l) * UNIT,
    ;
    lemma_bounded_product(c.x, w.x, p, q, k);
    lemma_bounded_product(c.y, w.y, p, q, k);
    lemma_bounded_product(c.z, w.z, p, q, k);
    let tx = c.x.mul(w.x).raw as int;
    let ty = c.y.mul(w.y).raw as int;
    let tz = c.z.mul(w.z).raw as int;
    let dot = c.dot(w);
    assert(dot.raw == tx + ty + tz);
    let six = Fixed::decimal(6, 0);
    assert(fixed::pow10(0) == 1);
    assert(six.raw == 6 * UNIT);
    fixed::lemma_quotient_truncates(dot, six);
    let vol = dot.div(six).raw as int;
    assert(fixed::near(6 * vol, dot.raw as int, 6)) by {
        assert(fixed::truncates(dot.raw * UNIT, 6 * UNIT, vol));
    }
    let mx = u.y.raw * v.z.raw - v.y.raw * u.z.raw;
    let my = u.z.raw * v.x.raw - v.z.raw * u.x.raw;
    let mz = u.x.raw * v.y.raw - v.x.raw * u.y.raw;
    lemma_term(c.x.raw as int, w.x.raw as int, tx, mx, l);
    lemma_term(c.y.raw as int, w.y.raw as int, ty, my, l);
    lemma_term(c.z.raw as int, w.z.raw as int, tz, mz, l);
    let square = UNIT * UNIT;
    assert((tx + ty + tz) * square == tx * square + ty * square + tz * square)
        by (nonlinear_arith);
    assert(fixed::near(6 * (vol * square), (tx + ty + tz) * square, 6 * square)) by (nonlinear_arith)
        requires
            -6 <= 6 * vol - (tx + ty + tz) <= 6,
            square == UNIT * UNIT,
    ;
    assert((6 * l + 9) * square == 3 * ((2 * l + 1) * square) + 6 * square) by (nonlinear_arith);
}

/// One term of the computed product with the normal against its exact value.
proof fn lemma_term(c: int, w: int, t: int, m: int, l: int)
    requires
        fixed::near(c * UNIT, m, 2 * UNIT),
        fixed::near(w, 0, l * UNIT),
        fixed::near(t * UNIT, c * w, UNIT as int),
    ensures
        fixed::near(t * (UNIT * UNIT), m * w, (2 * l + 1) * (UNIT * UNIT)),
{
    let e = c * UNIT - m;
    assert(fixed::near((c * UNIT) * w, m * w, 2 * UNIT * (l * UNIT))) by (nonlinear_arith)
        requires
            e == c * UNIT - m,
            -(2 * UNIT) <= e <= 2 * UNIT,
            -(l * UNIT) <= w <= l * UNIT,
    {
        assert((c * UNIT) * w - m * w == e * w);
        assert(-(2 * UNIT * (l * UNIT)) <= e * w <= 2 * UNIT * (l * UNIT));
    }
    assert((t * UNIT) * UNIT == t * (UNIT * UNIT)) by (nonlinear_arith);
    assert((c * w) * UNIT == (c * UNIT) * w) by (nonlinear_arith);
    assert(fixed::near((t * UNIT) * UNIT, (c * w) * UNIT, UNIT * UNIT)) by (nonlinear_arith)
        requires
            -UNIT <= t * UNIT - c * w <= UNIT,
    ;
    assert((2 * l + 1) * (UNIT * UNIT) == 2 * UNIT * (l * UNIT) + UNIT * UNIT)
        by (nonlinear_arith);
}

/// Whether two points are at most `l` apart along every axis.
pub open spec fn edge_within(p: Vector<Fixed>, q: Vector<Fixed>, l: int) -> bool {
    &&& -(l * UNIT) <= q.x.raw - p.x.raw <= l * UNIT
    &&& -(l * UNIT) <= q.y.raw - p.y.raw <= l * UNIT
    &&& -(l * UNIT) <= q.z.raw - p.z.raw <= l * UNIT
}

/// A determinant whose last vector is at most three steps long along every axis.
proof fn lemma_small_det(u: Triple, v: Triple, w: Triple, e: int)
    requires
        u.within(e),
        v.within(e),
        w.within(3),
    ensures
        fixed::near(det(u, v, w), 0, 18 * (e * e)),
{
    reveal(det);
    lemma_small_minor(u.y, v.z, v.y, u.z, w.x, e);
    lemma_small_minor(u.z, v.x, v.z, u.x, w.y, e);
    lemma_small_minor(u.x, v.y, v.x, u.y, w.z, e);
}

proof fn lemma_small_minor(a: int, b: int, c: int, d: int, w: int, e: int)
    requires
        fixed::near(a, 0, e) && fixed::near(b, 0, e) && fixed::near(c, 0, e) && fixed::near(d, 0, e),
        fixed::near(w, 0, 3),
    ensures
        fixed::near((a * b - c * d) * w, 0, 6 * (e * e)),
{
    assert(-(e * e) <= a * b <= e * e) by (nonlinear_arith)
        requires
            -e <= a <= e,
            -e <= b <= e,
    ;
    assert(-(e * e) <= c * d <= e * e) by (nonlinear_arith)
        requires
            -e <= c <= e,
            -e <= d <= e,
    ;
    let m = a * b - c * d;
    let k = 2 * (e * e);
    assert(-(3 * k) <= m * w <= 3 * k) by (nonlinear_arith)
        requires
            -k <= m <= k,
            -3 <= w <= 3,
    ;
}

proof fn lemma_orders(a: int, b: int, c: int)
    ensures
        (a * b) * c == (b * c) * a,
        (a * b) * c == (c * a) * b,
        (a * b) * c == (b * a) * c,
{
    assert((a * b) * c == (b * c) * a) by (nonlinear_arith);
    assert((a * b) * c == (c * a) * b) by (nonlinear_arith);
    assert((a * b) * c == (b * a) * c) by (nonlinear_arith);
}

proof fn lemma_difference_times(p: int, q: int, w: int)
    ensures
        (p - q) * w == p * w - q * w,
        w * (p - q) == w * p - w * q,
{
    assert((p - q) * w == p * w - q * w) by (nonlinear_arith);
    assert(w * (p - q) == w * p - w * q) by (nonlinear_arith);
}

/// Turning the three vectors around keeps the determinant, exchanging two changes its sign.
proof fn lemma_det_orders(u: Triple, v: Triple, w: Triple)
    ensures
        det(u, v, w) == det(v, w, u),
        det(u, v, w) == det(w, u, v),
        det(u, v, w) == -det(v, u, w),
{
    reveal(det);
    lemma_det_turned(u, v, w);
    lemma_det_turned(v, w, u);
    lemma_difference_times(u.y * v.z, v.y * u.z, w.x);
    lemma_difference_times(u.z * v.x, v.z * u.x, w.y);
    lemma_difference_times(u.x * v.y, v.x * u.y, w.z);
    lemma_difference_times(v.y * u.z, u.y * v.z, w.x);
    lemma_difference_times(v.z * u.x, u.z * v.x, w.y);
    lemma_difference_times(v.x * u.y, u.x * v.y, w.z);
}

proof fn lemma_det_turned(u: Triple, v: Triple, w: Triple)
    ensures
        det(u, v, w) == det(v, w, u),
{
    reveal(det);
    lemma_difference_times(u.y * v.z, v.y * u.z, w.x);
    lemma_difference_times(u.z * v.x, v.z * u.x, w.y);
    lemma_difference_times(u.x * v.y, v.x * u.y, w.z);
    lemma_difference_times(v.y * w.z, w.y * v.z, u.x);
    lemma_difference_times(v.z * w.x, w.z * v.x, u.y);
    lemma_difference_times(v.x * w.y, w.x * v.y, u.z);
    lemma_orders(u.y, v.z, w.x);
    lemma_orders(v.y, u.z, w.x);
    lemma_orders(u.z, v.x, w.y);
    lemma_orders(v.z, u.x, w.y);
    lemma_orders(u.x, v.y, w.z);
    lemma_orders(v.x, u.y, w.z);
    lemma_orders(w.x, v.y, u.z);
    lemma_orders(w.y, v.z, u.x);
    lemma_orders(w.z, v.x, u.y);
}

/// A determinant is linear in each of its vectors.
proof fn lemma_det_minus(u: Triple, v: Triple, a: Triple, b: Triple)
    ensures
        det(u, v, a.minus(b)) == det(u, v, a) - det(u, v, b),
        det(u, a.minus(b), v) == det(u, a, v) - det(u, b, v),
        det(a.minus(b), u, v) == det(a, u, v) - det(b, u, v),
{
    lemma_det_last_minus(u, v, a, b);
    lemma_det_last_minus(v, u, a, b);
    lemma_det_orders(u, a.minus(b), v);
    lemma_det_orders(u, a, v);
    lemma_det_orders(u, b, v);
    lemma_det_orders(a.minus(b), u, v);
    lemma_det_orders(a, u, v);
    lemma_det_orders(b, u, v);
}

proof fn lemma_det_last_minus(u: Triple, v: Triple, a: Triple, b: Triple)
    ensures
        det(u, v, a.minus(b)) == det(u, v, a) - det(u, v, b),
{
    reveal(det);
    lemma_difference_times(a.x, b.x, u.y * v.z - v.y * u.z);
    lemma_difference_times(a.y, b.y, u.z * v.x - v.z * u.x);
    lemma_difference_times(a.z, b.z, u.x * v.y - v.x * u.y);
}

/// A determinant in which a vector occurs twice is zero.
proof fn lemma_det_twice(u: Triple, v: Triple)
    ensures
        det(u, u, v) == 0,
        det(u, v, u) == 0,
        det(v, u, u) == 0,
{
    lemma_det_orders(u, u, v);
    lemma_det_orders(u, v, u);
}

/// The part of a tetrahedron with the corner at the origin and two others.
proof fn lemma_corner_part(x: Triple, a: Triple, b: Triple)
    ensures
        det((Triple { x: 0, y: 0, z: 0 }).minus(x), a.minus(x), b.minus(x)) == det(b, a, x),
{
    let o = Triple { x: 0, y: 0, z: 0 };
    let u = a.minus(x);
    let v = b.minus(x);
    lemma_det_minus(u, v, o, x);
    lemma_zero_det(u, v);
    lemma_det_minus(x, v, a, x);
    lemma_det_twice(x, v);
    lemma_det_minus(x, a, b, x);
    lemma_det_twice(x, a);
    lemma_det_orders(x, a, b);
    lemma_det_orders(b, a, x);
    lemma_det_orders(a, x, b);
}

proof fn lemma_zero_det(u: Triple, v: Triple)
    ensures
        det(Triple { x: 0, y: 0, z: 0 }, u, v) == 0,
{
    reveal(det);
    let o = Triple { x: 0, y: 0, z: 0 };
    lemma_det_orders(o, u, v);
    assert(det(u, v, o) == 0);
}

/// The part of a tetrahedron across from the corner at the origin.
proof fn lemma_far_part(x: Triple, b: Triple, c: Triple, d: Triple)
    ensures
        det(b.minus(x), c.minus(x), d.minus(x)) == det(b, c, d) - det(b, c, x) - det(d, b, x) - det(
            c,
            d,
            x,
        ),
{
    let v = c.minus(x);
    let w = d.minus(x);
    lemma_det_minus(v, w, b, x);
    lemma_det_minus(x, w, c, x);
    lemma_det_twice(x, w);
    lemma_det_minus(x, c, d, x);
    lemma_det_twice(x, c);
    lemma_det_minus(b, w, c, x);
    lemma_det_minus(b, c, d, x);
    lemma_det_minus(b, x, d, x);
    lemma_det_twice(x, b);
    lemma_det_orders(x, c, d);
    lemma_det_orders(b, x, d);
}

/// Replacing the last vector by a quarter of the sum of all three, up to `r`.
proof fn lemma_replaced(b: Triple, c: Triple, d: Triple, x: Triple, r: Triple)
    requires
        b.x + c.x + d.x == 4 * x.x + r.x,
        b.y + c.y + d.y == 4 * x.y + r.y,
        b.z + c.z + d.z == 4 * x.z + r.z,
    ensures
        4 * det(b, c, x) == det(b, c, d) - det(b, c, r),
{
    reveal(det);
    let mx = b.y * c.z - c.y * b.z;
    let my = b.z * c.x - c.z * b.x;
    let mz = b.x * c.y - c.x * b.y;
    lemma_det_twice(b, c);
    lemma_det_twice(c, b);
    lemma_quarter_term(mx, b.x, c.x, d.x, x.x, r.x);
    lemma_quarter_term(my, b.y, c.y, d.y, x.y, r.y);
    lemma_quarter_term(mz, b.z, c.z, d.z, x.z, r.z);
}

proof fn lemma_quarter_term(m: int, b: int, c: int, d: int, x: int, r: int)
    requires
        b + c + d == 4 * x + r,
    ensures
        4 * (m * x) == m * b + m * c + m * d - m * r,
{
    assert(m * (b + c + d) == m * b + m * c + m * d) by (nonlinear_arith);
    assert(m * (4 * x + r) == 4 * (m * x) + m * r) by (nonlinear_arith);
}

/// The mean of four coordinates that are in range.
proof fn lemma_mean(a: Fixed, b: Fixed, c: Fixed, d: Fixed)
    requires
        fixed::near(a.raw as int, 0, 0x1000_0000_0000_0000),
        fixed::near(b.raw as int, 0, 0x1000_0000_0000_0000),
        fixed::near(c.raw as int, 0, 0x1000_0000_0000_0000),
        fixed::near(d.raw as int, 0, 0x1000_0000_0000_0000),
    ensures
        fixed::near(
            4 * a.add(b).add(c).add(d).mul(Fixed::decimal(25, 2)).raw,
            a.raw + b.raw + c.raw + d.raw,
            3,
        ),
{
    lemma_quarter(a.add(b).add(c).add(d));
}

proof fn lemma_part_volume(part: int, whole: int, part_det: int, whole_det: int, l: int)
    requires
        1 <= l,
        fixed::near(6 * (part * (UNIT * UNIT)), part_det, (6 * l + 9) * (UNIT * UNIT)),
        fixed::near(6 * (whole * (UNIT * UNIT)), whole_det, (6 * l + 9) * (UNIT * UNIT)),
        fixed::near(4 * part_det, whole_det, 54 * ((l * UNIT) * (l * UNIT))),
    ensures
        fixed::near(4 * part, whole, 9 * (l * l) + 5 * l + 7),
{
    let square = UNIT * UNIT;
    let bound = 54 * (l * l) + 30 * l + 45;
    assert((l * UNIT) * (l * UNIT) == (l * l) * square) by (nonlinear_arith)
        requires
            square == UNIT * UNIT,
    ;
    assert((6 * l + 9) * square == 6 * (l * square) + 9 * square) by (nonlinear_arith);
    assert(bound * square == 54 * ((l * l) * square) + 30 * (l * square) + 45 * square)
        by (nonlinear_arith)
        requires
            bound == 54 * (l * l) + 30 * l + 45,
    ;
    let x = 4 * part - whole;
    assert(4 * (part * square) - whole * square == x * square) by (nonlinear_arith)
        requires
            x == 4 * part - whole,
    ;
    assert(fixed::near(6 * x, 0, bound)) by {
        assert(-(bound * square) <= 6 * (x * square) <= bound * square);
        assert(-bound <= 6 * x <= bound) by (nonlinear_arith)
            requires
                -(bound * square) <= 6 * (x * square) <= bound * square,
                square > 0,
        ;
    }
}

/// Whether the corners of a volume element are in range and at most `l` apart along every axis.
pub open spec fn element_within(ps: Seq<SoftParticle<Fixed>>, t: [u32; 4], l: int) -> bool {
    &&& forall|i: int|
        0 <= i < 4 ==> bounded(ps[(#[trigger] t[i]) as int].pos, 0x1000_0000_0000_0000)
    &&& forall|i: int, j: int|
        0 <= i < 4 && 0 <= j < 4 ==> edge_within(
            ps[(#[trigger] t[i]) as int].pos,
            ps[(#[trigger] t[j]) as int].pos,
            l,
        )
}

/// The signed volume of a volume element.
pub open spec fn element_volume(ps: Seq<SoftParticle<Fixed>>, t: [u32; 4]) -> int {
    constraints::signed_tetra_volume(
        ps[t[0] as int].pos,
        ps[t[1] as int].pos,
        ps[t[2] as int].pos,
        ps[t[3] as int].pos,
    ).raw as int
}

/// The determinants of the four parts of a tetrahedron around a point `m` whose coordinates are
/// the means of those of the corners, up to three quarters of a step.
proof fn lemma_four_parts(a: Triple, b: Triple, c: Triple, d: Triple, m: Triple, e: int)
    requires
        b.minus(a).within(e),
        c.minus(a).within(e),
        d.minus(a).within(e),
        fixed::near(4 * m.x, a.x + b.x + c.x + d.x, 3),
        fixed::near(4 * m.y, a.y + b.y + c.y + d.y, 3),
        fixed::near(4 * m.z, a.z + b.z + c.z + d.z, 3),
    ensures
        ({
            let whole = det(b.minus(a), c.minus(a), d.minus(a));
            let bound = 54 * (e * e);
            &&& fixed::near(4 * det(a.minus(m), c.minus(m), b.minus(m)), whole, bound)
            &&& fixed::near(4 * det(a.minus(m), b.minus(m), d.minus(m)), whole, bound)
            &&& fixed::near(4 * det(a.minus(m), d.minus(m), c.minus(m)), whole, bound)
            &&& fixed::near(4 * det(b.minus(m), c.minus(m), d.minus(m)), whole, bound)
        }),
{
    let o = Triple { x: 0, y: 0, z: 0 };
    let p = b.minus(a);
    let q = c.minus(a);
    let s = d.minus(a);
    let x = m.minus(a);
    let r = Triple {
        x: p.x + q.x + s.x - 4 * x.x,
        y: p.y + q.y + s.y - 4 * x.y,
        z: p.z + q.z + s.z - 4 * x.z,
    };
    lemma_replaced(p, q, s, x, r);
    lemma_replaced(s, p, q, x, r);
    lemma_replaced(q, s, p, x, r);
    lemma_det_orders(p, q, s);
    lemma_small_det(p, q, r, e);
    lemma_small_det(s, p, r, e);
    lemma_small_det(q, s, r, e);
    assert(a.minus(m) == o.minus(x));
    assert(b.minus(m) == p.minus(x));
    assert(c.minus(m) == q.minus(x));
    assert(d.minus(m) == s.minus(x));
    lemma_corner_part(x, q, p);
    lemma_corner_part(x, p, s);
    lemma_corner_part(x, s, q);
    lemma_far_part(x, p, q, s);
    assert(0 <= e * e) by (nonlinear_arith);
}

/// The volumes of the four parts of a tetrahedron around such a point.
proof fn lemma_four_volumes(
    pa: Vector<Fixed>,
    pb: Vector<Fixed>,
    pc: Vector<Fixed>,
    pd: Vector<Fixed>,
    pm: Vector<Fixed>,
    l: int,
)
    requires
        1 <= l,
        6 * (l * l * l) < 0x8000_0000,
        edge_within(pa, pb, l) && edge_within(pa, pc, l) && edge_within(pa, pd, l),
        edge_within(pb, pc, l) && edge_within(pb, pd, l) && edge_within(pc, pd, l),
        fixed::near(4 * pm.x.raw, pa.x.raw + pb.x.raw + pc.x.raw + pd.x.raw, 3),
        fixed::near(4 * pm.y.raw, pa.y.raw + pb.y.raw + pc.y.raw + pd.y.raw, 3),
        fixed::near(4 * pm.z.raw, pa.z.raw + pb.z.raw + pc.z.raw + pd.z.raw, 3),
    ensures
        ({
            let whole = constraints::signed_tetra_volume(pa, pb, pc, pd).raw as int;
            let bound = 9 * (l * l) + 5 * l + 7;
            &&& fixed::near(4 * constraints::signed_tetra_volume(pm, pa, pc, pb).raw, whole, bound)
            &&& fixed::near(4 * constraints::signed_tetra_volume(pm, pa, pb, pd).raw, whole, bound)
            &&& fixed::near(4 * constraints::signed_tetra_volume(pm, pa, pd, pc).raw, whole, bound)
            &&& fixed::near(4 * constraints::signed_tetra_volume(pm, pb, pc, pd).raw, whole, bound)
        }),
{
    let e = l * UNIT;
    assert(e >= UNIT) by (nonlinear_arith)
        requires
            e == l * UNIT,
            1 <= l,
    ;
    assert(edge_within(pm, pa, l) && edge_within(pm, pb, l) && edge_within(pm, pc, l)
        && edge_within(pm, pd, l));
    let a = steps(pa);
    let b = steps(pb);
    let c = steps(pc);
    let d = steps(pd);
    let m = steps(pm);
    lemma_four_parts(a, b, c, d, m, e);
    let all = det(b.minus(a), c.minus(a), d.minus(a));
    let whole = constraints::signed_tetra_volume(pa, pb, pc, pd).raw as int;
    lemma_volume_close(pa, pb, pc, pd, l);
    assert(fixed::near(
        4 * constraints::signed_tetra_volume(pm, pa, pc, pb).raw,
        whole,
        9 * (l * l) + 5 * l + 7,
    )) by {
        lemma_volume_close(pm, pa, pc, pb, l);
        lemma_part_volume(
            constraints::signed_tetra_volume(pm, pa, pc, pb).raw as int,
            whole,
            det(a.minus(m), c.minus(m), b.minus(m)),
            all,
            l,
        );
    }
    assert(fixed::near(
        4 * constraints::signed_tetra_volume(pm, pa, pb, pd).raw,
        whole,
        9 * (l * l) + 5 * l + 7,
    )) by {
        lemma_volume_close(pm, pa, pb, pd, l);
        lemma_part_volume(
            constraints::signed_tetra_volume(pm, pa, pb, pd).raw as int,
            whole,
            det(a.minus(m), b.minus(m), d.minus(m)),
            all,
            l,
        );
    }
    assert(fixed::near(
        4 * constraints::signed_tetra_volume(pm, pa, pd, pc).raw,
        whole,
        9 * (l * l) + 5 * l + 7,
    )) by {
        lemma_volume_close(pm, pa, pd, pc, l);
        lemma_part_volume(
            constraints::signed_tetra_volume(pm, pa, pd, pc).raw as int,
            whole,
            det(a.minus(m), d.minus(m), c.minus(m)),
            all,
            l,
        );
    }
    assert(fixed::near(
        4 * constraints::signed_tetra_volume(pm, pb, pc, pd).raw,
        whole,
        9 * (l * l) + 5 * l + 7,
    )) by {
        lemma_volume_close(pm, pb, pc, pd, l);
        lemma_part_volume(
            constraints::signed_tetra_volume(pm, pb, pc, pd).raw as int,
            whole,
            det(b.minus(m), c.minus(m), d.minus(m)),
            all,
            l,
        );
    }
}

/// Where the corners of the four parts are.
proof fn lemma_part_corners(
    ps: Seq<SoftParticle<Fixed>>,
    t: [u32; 4],
    mid: SoftParticle<Fixed>,
    k: int,
)
    requires
        ps.len() <= u32::MAX,
        t[0] < ps.len() && t[1] < ps.len() && t[2] < ps.len() && t[3] < ps.len(),
        0 <= k < 4,
    ensures
        ({
            let q = refine::parts(t, ps.len() as u32)[k];
            let qs = ps.push(mid);
            let at = |i: int| qs[q[i] as int].pos;
            let a = ps[t[0] as int].pos;
            let b = ps[t[1] as int].pos;
            let c = ps[t[2] as int].pos;
            let d = ps[t[3] as int].pos;
            &&& at(0) == mid.pos
            &&& k == 0 ==> at(1) == a && at(2) == c && at(3) == b
            &&& k == 1 ==> at(1) == a && at(2) == b && at(3) == d
            &&& k == 2 ==> at(1) == a && at(2) == d && at(3) == c
            &&& k == 3 ==> at(1) == b && at(2) == c && at(3) == d
        }),
{
    let n = ps.len() as u32;
    let parts = refine::parts(t, n);
    assert(parts[0] == [n, t[0], t[2], t[1]]);
    assert(parts[1] == [n, t[0], t[1], t[3]]);
    assert(parts[2] == [n, t[0], t[3], t[2]]);
    assert(parts[3] == [n, t[1], t[2], t[3]]);
}

/// The volumes of the four parts, by their corners.
proof fn lemma_part_volumes(
    ps: Seq<SoftParticle<Fixed>>,
    t: [u32; 4],
    mid: SoftParticle<Fixed>,
    bound: int,
    k: int,
)
    requires
        ps.len() <= u32::MAX,
        t[0] < ps.len() && t[1] < ps.len() && t[2] < ps.len() && t[3] < ps.len(),
        0 <= k < 4,
        ({
            let a = ps[t[0] as int].pos;
            let b = ps[t[1] as int].pos;
            let c = ps[t[2] as int].pos;
            let d = ps[t[3] as int].pos;
            let whole = constraints::signed_tetra_volume(a, b, c, d).raw as int;
            &&& fixed::near(4 * constraints::signed_tetra_volume(mid.pos, a, c, b).raw, whole, bound)
            &&& fixed::near(4 * constraints::signed_tetra_volume(mid.pos, a, b, d).raw, whole, bound)
            &&& fixed::near(4 * constraints::signed_tetra_volume(mid.pos, a, d, c).raw, whole, bound)
            &&& fixed::near(4 * constraints::signed_tetra_volume(mid.pos, b, c, d).raw, whole, bound)
        }),
    ensures
        fixed::near(
            4 * element_volume(ps.push(mid), refine::parts(t, ps.len() as u32)[k]),
            element_volume(ps, t),
            bound,
        ),
{
    lemma_part_corners(ps, t, mid, k);
}

/// Each of the four parts of a split volume element has a quarter of its signed volume, with its
/// sign: four times the part is the whole, up to `9 l^2 + 5 l + 7` steps for an element that is at
/// most `l` wide along every axis. So where the rest volume of the element is its volume, the rest
/// volume of each part is the volume of that part, up to a quarter of `9 l^2 + 5 l + 10` steps.
pub proof fn lemma_parts_are_quarters(
    ps: Seq<SoftParticle<Fixed>>,
    t: [u32; 4],
    rest: Fixed,
    l: int,
    k: int,
)
    requires
        ps.len() <= u32::MAX,
        forall|i: int| 0 <= i < 4 ==> (#[trigger] t[i]) < ps.len(),
        element_within(ps, t, l),
        1 <= l,
        6 * (l * l * l) < 0x8000_0000,
        0 <= k < 4,
    ensures
        ({
            let m = refine::middle(
                ps[t[0] as int],
                ps[t[1] as int],
                ps[t[2] as int],
                ps[t[3] as int],
            );
            let part = element_volume(ps.push(m), refine::parts(t, ps.len() as u32)[k]);
            let whole = element_volume(ps, t);
            let quarter = rest.mul(Fixed::decimal(25, 2)).raw;
            &&& fixed::magnitude(4 * part - whole) <= 9 * (l * l) + 5 * l + 7
            &&& rest.raw == whole ==> fixed::magnitude(4 * (part - quarter)) <= 9 * (l * l) + 5 * l
                + 10
        }),
{
    let pa = ps[t[0] as int].pos;
    let pb = ps[t[1] as int].pos;
    let pc = ps[t[2] as int].pos;
    let pd = ps[t[3] as int].pos;
    let mid = refine::middle(ps[t[0] as int], ps[t[1] as int], ps[t[2] as int], ps[t[3] as int]);
    let pm = mid.pos;
    assert(t[0] < ps.len() && t[1] < ps.len() && t[2] < ps.len() && t[3] < ps.len());
    assert(edge_within(pa, pb, l) && edge_within(pa, pc, l) && edge_within(pa, pd, l));
    assert(edge_within(pb, pc, l) && edge_within(pb, pd, l) && edge_within(pc, pd, l));
    assert(bounded(pa, 0x1000_0000_0000_0000) && bounded(pb, 0x1000_0000_0000_0000));
    assert(bounded(pc, 0x1000_0000_0000_0000) && bounded(pd, 0x1000_0000_0000_0000));
    lemma_mean(pa.x, pb.x, pc.x, pd.x);
    lemma_mean(pa.y, pb.y, pc.y, pd.y);
    lemma_mean(pa.z, pb.z, pc.z, pd.z);
    lemma_quarter(rest);
    lemma_four_volumes(pa, pb, pc, pd, pm, l);
    lemma_part_volumes(ps, t, mid, 9 * (l * l) + 5 * l + 7, k);
}

impl Triple {
    spec fn dot(self, o: Triple) -> int {
        self.x * o.x + self.y * o.y + self.z * o.z
    }

    spec fn cross(self, o: Triple) -> Triple {
        Triple {
            x: self.y * o.z - o.y * self.z,
            y: self.z * o.x - o.z * self.x,
            z: self.x * o.y - o.x * self.y,
        }
    }
}

/// One coordinate of `p` turned by the quaternion with the vector part `v` and the scalar part
/// `w`, times the squared length of the quaternion.
spec fn turned(a: int, g: int, w: int, p: int, v: int, c: int) -> int {
    a * p + 2 * (g * v) + 2 * (w * c)
}

/// `p` turned by a quaternion, times its squared length.
#[verifier::opaque]
spec fn turn(v: Triple, w: int, p: Triple) -> Triple {
    let a = w * w - v.dot(v);
    let g = p.dot(v);
    let c = v.cross(p);
    Triple {
        x: turned(a, g, w, p.x, v.x, c.x),
        y: turned(a, g, w, p.y, v.y, c.y),
        z: turned(a, g, w, p.z, v.z, c.z),
    }
}

/// One coordinate of the cross product with a cross product.
proof fn lemma_double_cross(vx: int, vy: int, vz: int, px: int, py: int, pz: int)
    ensures
        vy * (vx * py - px * vy) - (vz * px - pz * vx) * vz == vx * (px * vx + py * vy + pz * vz)
            - px * (vx * vx + vy * vy + vz * vz),
{
    lemma_difference_times(vx * py, px * vy, vy);
    lemma_difference_times(vz * px, pz * vx, vz);
    lemma_orders(vx, py, vy);
    lemma_orders(px, vy, vy);
    lemma_orders(vz, px, vz);
    lemma_orders(pz, vx, vz);
    lemma_orders(py, vy, vx);
    lemma_orders(pz, vz, vx);
    lemma_orders(px, vx, vx);
    lemma_orders(vx, vx, px);
    lemma_orders(vy, vy, px);
    lemma_orders(vz, vz, px);
    assert(vy * (vx * py - px * vy) == (vx * py) * vy - (px * vy) * vy) by {
        assert(vy * (vx * py) == (vx * py) * vy) by (nonlinear_arith);
        assert(vy * (px * vy) == (px * vy) * vy) by (nonlinear_arith);
    }
    assert(vx * (px * vx + py * vy + pz * vz) == (px * vx) * vx + (py * vy) * vx + (pz * vz) * vx)
        by (nonlinear_arith);
    assert(px * (vx * vx + vy * vy + vz * vz) == (vx * vx) * px + (vy * vy) * px + (vz * vz) * px)
        by (nonlinear_arith);
}

/// One coordinate of `p` turned back: the vector part counts against its direction.
spec fn turned_back(a: int, g: int, w: int, p: int, v: int, c: int) -> int {
    a * p + 2 * (g * v) - 2 * (w * c)
}

proof fn lemma_times_turned_back(m: int, a: int, g: int, w: int, p: int, v: int, c: int)
    ensures
        m * turned_back(a, g, w, p, v, c) == a * (m * p) + 2 * (g * (m * v)) - 2 * (w * (m * c)),
{
    let t = turned_back(a, g, w, p, v, c);
    assert(m * t == m * (a * p) + 2 * (m * (g * v)) - 2 * (m * (w * c))) by (nonlinear_arith)
        requires
            t == a * p + 2 * (g * v) - 2 * (w * c),
    ;
    assert(m * (a * p) == a * (m * p)) by (nonlinear_arith);
    assert(m * (g * v) == g * (m * v)) by (nonlinear_arith);
    assert(m * (w * c) == w * (m * c)) by (nonlinear_arith);
}

/// One coordinate of the cross product with what was turned back.
proof fn lemma_cross_turned_back(
    v: Triple,
    p: Triple,
    y: Triple,
    a: int,
    w: int,
)
    requires
        ({
            let g = p.dot(v);
            let c = v.cross(p);
            &&& y.y == turned_back(a, g, w, p.y, v.y, c.y)
            &&& y.z == turned_back(a, g, w, p.z, v.z, c.z)
        }),
    ensures
        v.y * y.z - y.y * v.z == a * v.cross(p).x - 2 * (w * (v.x * p.dot(v) - p.x * v.dot(v))),
{
    let g = p.dot(v);
    let c = v.cross(p);
    lemma_times_turned_back(v.y, a, g, w, p.z, v.z, c.z);
    lemma_times_turned_back(v.z, a, g, w, p.y, v.y, c.y);
    assert(y.y * v.z == v.z * y.y) by (nonlinear_arith);
    assert(v.z * p.y == p.y * v.z && v.y * v.z == v.z * v.y && v.z * c.y == c.y * v.z)
        by (nonlinear_arith);
    lemma_difference_times(v.y * p.z, p.y * v.z, a);
    lemma_difference_times(v.y * c.z, c.y * v.z, w);
    lemma_double_cross(v.x, v.y, v.z, p.x, p.y, p.z);
}

proof fn lemma_there_and_back(a: int, n: int, g: int, w: int, s: int, p: int, v: int, c: int)
    requires
        a == w * w - s,
        n == w * w + s,
    ensures
        turned(
            a,
            n * g,
            w,
            turned_back(a, g, w, p, v, c),
            v,
            a * c - 2 * (w * (v * g - p * s)),
        ) == (n * n) * p,
{
    let t = g * v;
    let y = turned_back(a, g, w, p, v, c);
    let k = v * g - p * s;
    let m = w * w;
    lemma_times_turned_back(a, a, g, w, p, v, c);
    assert(g * (a * v) == a * t) by (nonlinear_arith)
        requires
            t == g * v,
    ;
    assert(w * (a * c) == a * (w * c)) by (nonlinear_arith);
    assert((n * g) * v == n * t) by (nonlinear_arith)
        requires
            t == g * v,
    ;
    assert(w * (a * c - 2 * (w * k)) == w * (a * c) - 2 * (m * k)) by (nonlinear_arith)
        requires
            m == w * w,
    ;
    assert(v * g == t) by (nonlinear_arith)
        requires
            t == g * v,
    ;
    lemma_difference_times(t, p * s, m);
    assert(a * t + n * t == 2 * (m * t)) by (nonlinear_arith)
        requires
            a + n == 2 * m,
    ;
    assert(m * (p * s) == (m * s) * p) by (nonlinear_arith);
    assert(a * (a * p) == (a * a) * p) by (nonlinear_arith);
    assert(a * a + 4 * (m * s) == n * n) by (nonlinear_arith)
        requires
            a == m - s,
            n == m + s,
    ;
    assert((a * a) * p + 4 * ((m * s) * p) == (n * n) * p) by (nonlinear_arith)
        requires
            a * a + 4 * (m * s) == n * n,
    ;
    assert(w * (a * c) == a * (w * c));
}

/// The vector against which a quaternion turns back.
spec fn opposite(v: Triple) -> Triple {
    Triple { x: -v.x, y: -v.y, z: -v.z }
}

proof fn lemma_opposite(v: Triple, w: int, p: Triple)
    ensures
        ({
            let a = w * w - v.dot(v);
            let g = p.dot(v);
            let c = v.cross(p);
            turn(opposite(v), w, p) == (Triple {
                x: turned_back(a, g, w, p.x, v.x, c.x),
                y: turned_back(a, g, w, p.y, v.y, c.y),
                z: turned_back(a, g, w, p.z, v.z, c.z),
            })
        }),
{
    reveal(turn);
    let o = opposite(v);
    let g = p.dot(v);
    let c = v.cross(p);
    assert((-v.x) * (-v.x) == v.x * v.x && (-v.y) * (-v.y) == v.y * v.y && (-v.z) * (-v.z) == v.z
        * v.z) by (nonlinear_arith);
    assert(p.x * (-v.x) == -(p.x * v.x) && p.y * (-v.y) == -(p.y * v.y) && p.z * (-v.z) == -(p.z
        * v.z)) by (nonlinear_arith);
    assert(p.dot(o) == -g);
    assert((-g) * (-v.x) == g * v.x && (-g) * (-v.y) == g * v.y && (-g) * (-v.z) == g * v.z)
        by (nonlinear_arith);
    lemma_opposite_minor(v.y, p.z, p.y, v.z);
    lemma_opposite_minor(v.z, p.x, p.z, v.x);
    lemma_opposite_minor(v.x, p.y, p.x, v.y);
    assert(w * (-c.x) == -(w * c.x) && w * (-c.y) == -(w * c.y) && w * (-c.z) == -(w * c.z))
        by (nonlinear_arith);
}

proof fn lemma_opposite_minor(a: int, b: int, c: int, d: int)
    ensures
        (-a) * b - c * (-d) == -(a * b - c * d),
{
    assert((-a) * b == -(a * b)) by (nonlinear_arith);
    assert(c * (-d) == -(c * d)) by (nonlinear_arith);
}

/// Turning a vector back and then forth again gives it back, times the square of the squared
/// length of the quaternion.
proof fn lemma_turned_twice(v: Triple, w: int, p: Triple)
    ensures
        ({
            let n = w * w + v.dot(v);
            turn(v, w, turn(opposite(v), w, p)) == (Triple {
                x: (n * n) * p.x,
                y: (n * n) * p.y,
                z: (n * n) * p.z,
            })
        }),
{
    let s = v.dot(v);
    let a = w * w - s;
    let n = w * w + s;
    let g = p.dot(v);
    let c = v.cross(p);
    let y = turn(opposite(v), w, p);
    lemma_opposite(v, w, p);
    // The part along the axis.
    assert(y.dot(v) == n * g) by {
        lemma_times_turned_back(v.x, a, g, w, p.x, v.x, c.x);
        lemma_times_turned_back(v.y, a, g, w, p.y, v.y, c.y);
        lemma_times_turned_back(v.z, a, g, w, p.z, v.z, c.z);
        assert(y.x * v.x == v.x * y.x && y.y * v.y == v.y * y.y && y.z * v.z == v.z * y.z)
            by (nonlinear_arith);
        assert(v.x * p.x == p.x * v.x && v.y * p.y == p.y * v.y && v.z * p.z == p.z * v.z)
            by (nonlinear_arith);
        assert(v.x * c.x == c.x * v.x && v.y * c.y == c.y * v.y && v.z * c.z == c.z * v.z)
            by (nonlinear_arith);
        lemma_sum_times(a, p.x * v.x, p.y * v.y, p.z * v.z);
        lemma_sum_times(g, v.x * v.x, v.y * v.y, v.z * v.z);
        lemma_sum_times(w, c.x * v.x, c.y * v.y, c.z * v.z);
        assert(c.x * v.x + c.y * v.y + c.z * v.z == 0) by {
            reveal(det);
            lemma_det_twice(v, p);
        }
        assert(w * 0 == 0);
        assert(a * g + 2 * (g * s) == n * g) by (nonlinear_arith)
            requires
                n == a + 2 * s,
        ;
    }
    // The part across the axis.
    lemma_cross_turned_back(v, p, y, a, w);
    let (v2, p2, y2) = (turned_axes(v), turned_axes(p), turned_axes(y));
    let (v3, p3, y3) = (turned_axes(v2), turned_axes(p2), turned_axes(y2));
    lemma_cross_turned_back(v2, p2, y2, a, w);
    lemma_cross_turned_back(v3, p3, y3, a, w);
    let d = v.cross(y);
    assert(d.x == a * c.x - 2 * (w * (v.x * g - p.x * s)));
    assert(d.y == a * c.y - 2 * (w * (v.y * g - p.y * s)));
    assert(d.z == a * c.z - 2 * (w * (v.z * g - p.z * s)));
    lemma_there_and_back(a, n, g, w, s, p.x, v.x, c.x);
    lemma_there_and_back(a, n, g, w, s, p.y, v.y, c.y);
    lemma_there_and_back(a, n, g, w, s, p.z, v.z, c.z);
    reveal(turn);
}

/// The same vector with the axes renamed in turn.
spec fn turned_axes(v: Triple) -> Triple {
    Triple { x: v.y, y: v.z, z: v.x }
}

proof fn lemma_sum_times(m: int, x: int, y: int, z: int)
    ensures
        m * (x + y + z) == m * x + m * y + m * z,
{
    assert(m * (x + y + z) == m * x + m * y + m * z) by (nonlinear_arith);
}

/// A computed product `t` of `x` with a `y` that stands for `z`.
proof fn lemma_product_with_rounded(x: int, y: int, t: int, z: int, b: int, e: int)
    requires
        fixed::near(t * UNIT, x * y, UNIT as int),
        fixed::near(y * UNIT, z, e),
        fixed::near(x, 0, b),
        0 <= e,
    ensures
        fixed::near(t * (UNIT * UNIT), x * z, UNIT * UNIT + b * e),
{
    let d = y * UNIT - z;
    assert((x * y) * UNIT == x * z + x * d) by (nonlinear_arith)
        requires
            d == y * UNIT - z,
    ;
    assert(-(b * e) <= x * d <= b * e) by (nonlinear_arith)
        requires
            -b <= x <= b,
            -e <= d <= e,
    ;
    assert((t * UNIT) * UNIT == t * (UNIT * UNIT)) by (nonlinear_arith);
    assert(fixed::near((t * UNIT) * UNIT, (x * y) * UNIT, UNIT * UNIT)) by (nonlinear_arith)
        requires
            -UNIT <= t * UNIT - x * y <= UNIT,
    ;
}

proof fn lemma_turned_component(
    p: Fixed,
    v: Fixed,
    s: Fixed,
    g2: Fixed,
    c: Fixed,
    w2: Fixed,
    a: int,
    g: int,
    across: int,
    w: int,
    l: int,
)
    requires
        1 <= l < 0x200_0000,
        fixed::near(p.raw as int, 0, l * UNIT),
        fixed::near(v.raw as int, 0, 2 * UNIT),
        fixed::near(s.raw as int, 0, 12 * UNIT),
        fixed::near(s.raw * UNIT, a, 4 * UNIT),
        fixed::near(g2.raw as int, 0, 12 * (l * UNIT)),
        fixed::near(g2.raw * UNIT, 2 * g, 6 * UNIT),
        fixed::near(c.raw as int, 0, 4 * (l * UNIT)),
        fixed::near(c.raw * UNIT, across, 2 * UNIT),
        w2.raw == 2 * w,
        fixed::near(w, 0, 2 * UNIT),
    ensures
        ({
            let r = p.mul(s).add(v.mul(g2)).add(c.mul(w2)).raw as int;
            &&& fixed::near(
                r * (UNIT * UNIT),
                turned(a, g, w, p.raw as int, v.raw as int, across),
                (4 * l + 23) * (UNIT * UNIT),
            )
            &&& fixed::near(r, 0, 52 * (l * UNIT))
        }),
{
    let b = l * UNIT;
    let k = 0x200_0000 * UNIT;
    assert(b < k);
    assert(b * (12 * UNIT) == (12 * b) * UNIT) by (nonlinear_arith);
    assert((2 * UNIT) * (12 * b) == (24 * b) * UNIT) by (nonlinear_arith);
    assert((4 * b) * (4 * UNIT) == (16 * b) * UNIT) by (nonlinear_arith);
    lemma_bounded_product(p, s, b, 12 * UNIT, 12 * b);
    lemma_bounded_product(v, g2, 2 * UNIT, 12 * b, 24 * b);
    lemma_bounded_product(c, w2, 4 * b, 4 * UNIT, 16 * b);
    let t1 = p.mul(s).raw as int;
    let t2 = v.mul(g2).raw as int;
    let t3 = c.mul(w2).raw as int;
    let r = p.mul(s).add(v.mul(g2)).add(c.mul(w2)).raw as int;
    assert(r == t1 + t2 + t3);
    let (x, y, z) = (p.raw as int, v.raw as int, w2.raw as int);
    lemma_product_with_rounded(x, s.raw as int, t1, a, b, 4 * UNIT);
    lemma_product_with_rounded(y, g2.raw as int, t2, 2 * g, 2 * UNIT, 6 * UNIT);
    assert(c.raw * z == z * c.raw) by (nonlinear_arith);
    lemma_product_with_rounded(z, c.raw as int, t3, across, 4 * UNIT, 2 * UNIT);
    assert(x * a == a * x && y * (2 * g) == 2 * (g * y)) by (nonlinear_arith);
    assert(z * across == 2 * (w * across)) by (nonlinear_arith)
        requires
            z == 2 * w,
    ;
    let square = UNIT * UNIT;
    assert((t1 + t2 + t3) * square == t1 * square + t2 * square + t3 * square)
        by (nonlinear_arith);
    assert(b * (4 * UNIT) == 4 * (l * square)) by (nonlinear_arith)
        requires
            b == l * UNIT,
            square == UNIT * UNIT,
    ;
    assert((2 * UNIT) * (6 * UNIT) == 12 * square && (4 * UNIT) * (2 * UNIT) == 8 * square)
        by (nonlinear_arith)
        requires
            square == UNIT * UNIT,
    ;
    assert((4 * l + 23) * square == 4 * (l * square) + 23 * square) by (nonlinear_arith);
    let (aa, bb, cc) = (a * x, g * y, w * across);
    assert(fixed::near(t1 * square, aa, square + 4 * (l * square)));
    assert(fixed::near(t2 * square, 2 * bb, 13 * square));
    assert(fixed::near(t3 * square, 2 * cc, 9 * square));
}

/// Twice a number that is not out of range is exact.
pub proof fn lemma_twice(x: Fixed)
    requires
        fixed::near(x.raw as int, 0, 0x2000_0000_0000_0000),
    ensures
        x.mul(Fixed::decimal(2, 0)).raw == 2 * x.raw,
{
    let two = Fixed::decimal(2, 0);
    assert(fixed::pow10(0) == 1);
    assert(fixed::decimal_steps(2, 0) == 2 * UNIT);
    assert(two.raw == 2 * UNIT);
    fixed::lemma_product_truncates(x, two);
}

/// Whether no coefficient of a rotation is beyond two.
pub open spec fn coefficients_within(q: Rotation<Fixed>) -> bool {
    bounded(q.v, 2 * UNIT) && -2 * UNIT <= q.w.raw <= 2 * UNIT
}

/// A computed rotation against the exact one.
proof fn lemma_rotate_close(q: Rotation<Fixed>, p: Vector<Fixed>, l: int)
    requires
        1 <= l < 0x200_0000,
        coefficients_within(q),
        bounded(p, l * UNIT),
    ensures
        ({
            let r = q.rotate(p);
            let t = turn(steps(q.v), q.w.raw as int, steps(p));
            let bound = (4 * l + 23) * (UNIT * UNIT);
            &&& fixed::near(r.x.raw * (UNIT * UNIT), t.x, bound)
            &&& fixed::near(r.y.raw * (UNIT * UNIT), t.y, bound)
            &&& fixed::near(r.z.raw * (UNIT * UNIT), t.z, bound)
            &&& bounded(r, 52 * (l * UNIT))
        }),
{
    reveal(turn);
    let v = q.v;
    let w = q.w;
    let (e, b) = (2 * UNIT as int, l * UNIT);
    assert(b < 0x200_0000 * UNIT);
    assert(e * e == (4 * UNIT) * UNIT) by (nonlinear_arith)
        requires
            e == 2 * UNIT,
    ;
    assert(b * e == (2 * b) * UNIT && e * b == (2 * b) * UNIT) by (nonlinear_arith)
        requires
            e == 2 * UNIT,
    ;
    lemma_bounded_product(w, w, e, e, 4 * UNIT);
    lemma_bounded_product(v.x, v.x, e, e, 4 * UNIT);
    lemma_bounded_product(v.y, v.y, e, e, 4 * UNIT);
    lemma_bounded_product(v.z, v.z, e, e, 4 * UNIT);
    lemma_square_not_negative(w);
    lemma_square_not_negative(v.x);
    lemma_square_not_negative(v.y);
    lemma_square_not_negative(v.z);
    let s = w.mul(w).sub(v.dot(v));
    lemma_bounded_product(p.x, v.x, b, e, 2 * b);
    lemma_bounded_product(p.y, v.y, b, e, 2 * b);
    lemma_bounded_product(p.z, v.z, b, e, 2 * b);
    let g = p.dot(v);
    lemma_twice(g);
    lemma_twice(w);
    lemma_bounded_product(v.y, p.z, e, b, 2 * b);
    lemma_bounded_product(p.y, v.z, b, e, 2 * b);
    lemma_bounded_product(v.z, p.x, e, b, 2 * b);
    lemma_bounded_product(p.z, v.x, b, e, 2 * b);
    lemma_bounded_product(v.x, p.y, e, b, 2 * b);
    lemma_bounded_product(p.x, v.y, b, e, 2 * b);
    let c = v.cross(p);
    let (vt, pt, wt) = (steps(v), steps(p), w.raw as int);
    let a = wt * wt - vt.dot(vt);
    let g2 = g.mul(Fixed::decimal(2, 0));
    let w2 = w.mul(Fixed::decimal(2, 0));
    let ct = vt.cross(pt);
    lemma_turned_component(p.x, v.x, s, g2, c.x, w2, a, pt.dot(vt), ct.x, wt, l);
    lemma_turned_component(p.y, v.y, s, g2, c.y, w2, a, pt.dot(vt), ct.y, wt, l);
    lemma_turned_component(p.z, v.z, s, g2, c.z, w2, a, pt.dot(vt), ct.z, wt, l);
}

proof fn lemma_square_not_negative(x: Fixed)
    ensures
        x.mul(x).raw >= 0,
{
}

/// `k` times `x` as the sum of `y` and `e`, times `m`.
proof fn lemma_split_times(k: int, x: int, y: int, e: int, m: int)
    requires
        k * x == y + e,
    ensures
        k * (x * m) == y * m + e * m,
        k * (m * x) == m * y + m * e,
{
    assert(k * (x * m) == (k * x) * m) by (nonlinear_arith);
    assert((y + e) * m == y * m + e * m) by (nonlinear_arith);
    assert(k * (m * x) == m * (k * x)) by (nonlinear_arith);
    assert(m * (y + e) == m * y + m * e) by (nonlinear_arith);
}

/// One coordinate of the cross product, split likewise.
proof fn lemma_split_minor(
    k: int,
    vy: int,
    vz: int,
    z: int,
    yz: int,
    ez: int,
    y: int,
    yy: int,
    ey: int,
)
    requires
        k * z == yz + ez,
        k * y == yy + ey,
    ensures
        k * (vy * z - y * vz) == (vy * yz - yy * vz) + (vy * ez - ey * vz),
{
    lemma_split_times(k, z, yz, ez, vy);
    lemma_split_times(k, y, yy, ey, vz);
    lemma_difference_times(vy * z, y * vz, k);
}

proof fn lemma_split_turned(
    k: int,
    a: int,
    w: int,
    v: int,
    p: int,
    py: int,
    pe: int,
    g: int,
    gy: int,
    ge: int,
    c: int,
    cy: int,
    ce: int,
)
    requires
        k * p == py + pe,
        k * g == gy + ge,
        k * c == cy + ce,
    ensures
        k * turned(a, g, w, p, v, c) == turned(a, gy, w, py, v, cy) + turned(a, ge, w, pe, v, ce),
{
    lemma_split_times(k, p, py, pe, a);
    lemma_split_times(k, g, gy, ge, v);
    lemma_split_times(k, c, cy, ce, w);
    let (x, y, z) = (a * p, g * v, w * c);
    assert(k * (x + 2 * y + 2 * z) == k * x + 2 * (k * y) + 2 * (k * z)) by (nonlinear_arith);
}

/// Turning is linear.
proof fn lemma_turn_splits(v: Triple, w: int, p: Triple, y: Triple, e: Triple, k: int)
    requires
        k * p.x == y.x + e.x,
        k * p.y == y.y + e.y,
        k * p.z == y.z + e.z,
    ensures
        k * turn(v, w, p).x == turn(v, w, y).x + turn(v, w, e).x,
        k * turn(v, w, p).y == turn(v, w, y).y + turn(v, w, e).y,
        k * turn(v, w, p).z == turn(v, w, y).z + turn(v, w, e).z,
{
    reveal(turn);
    let a = w * w - v.dot(v);
    lemma_split_times(k, p.x, y.x, e.x, v.x);
    lemma_split_times(k, p.y, y.y, e.y, v.y);
    lemma_split_times(k, p.z, y.z, e.z, v.z);
    lemma_sum_times(k, p.x * v.x, p.y * v.y, p.z * v.z);
    let (g, gy, ge) = (p.dot(v), y.dot(v), e.dot(v));
    assert(k * g == gy + ge);
    let (c, cy, ce) = (v.cross(p), v.cross(y), v.cross(e));
    lemma_split_minor(k, v.y, v.z, p.z, y.z, e.z, p.y, y.y, e.y);
    lemma_split_minor(k, v.z, v.x, p.x, y.x, e.x, p.z, y.z, e.z);
    lemma_split_minor(k, v.x, v.y, p.y, y.y, e.y, p.x, y.x, e.x);
    lemma_split_turned(k, a, w, v.x, p.x, y.x, e.x, g, gy, ge, c.x, cy.x, ce.x);
    lemma_split_turned(k, a, w, v.y, p.y, y.y, e.y, g, gy, ge, c.y, cy.y, ce.y);
    lemma_split_turned(k, a, w, v.z, p.z, y.z, e.z, g, gy, ge, c.z, cy.z, ce.z);
}

proof fn lemma_times_within(x: int, y: int, a: int, b: int)
    requires
        fixed::near(x, 0, a),
        fixed::near(y, 0, b),
    ensures
        fixed::near(x * y, 0, a * b),
{
    assert(-(a * b) <= x * y <= a * b) by (nonlinear_arith)
        requires
            -a <= x <= a,
            -b <= y <= b,
    ;
}

/// What turning makes of a vector of at most `e` along every axis.
proof fn lemma_turn_bounded(v: Triple, w: int, p: Triple, e: int)
    requires
        v.within(2 * UNIT),
        fixed::near(w, 0, 2 * UNIT),
        p.within(e),
    ensures
        turn(v, w, p).within(52 * (UNIT * UNIT) * e),
{
    reveal(turn);
    let u = 2 * UNIT as int;
    let square = UNIT * UNIT;
    assert(u * u == 4 * square) by (nonlinear_arith)
        requires
            u == 2 * UNIT,
            square == UNIT * UNIT,
    ;
    assert(0 <= w * w && 0 <= v.x * v.x && 0 <= v.y * v.y && 0 <= v.z * v.z) by (nonlinear_arith);
    lemma_times_within(w, w, u, u);
    lemma_times_within(v.x, v.x, u, u);
    lemma_times_within(v.y, v.y, u, u);
    lemma_times_within(v.z, v.z, u, u);
    let a = w * w - v.dot(v);
    assert(fixed::near(a, 0, 12 * square));
    lemma_times_within(p.x, v.x, e, u);
    lemma_times_within(p.y, v.y, e, u);
    lemma_times_within(p.z, v.z, e, u);
    let g = p.dot(v);
    let c = v.cross(p);
    assert(e * u == u * e) by (nonlinear_arith);
    assert(fixed::near(g, 0, 3 * (e * u)));
    lemma_times_within(v.y, p.z, u, e);
    lemma_times_within(p.y, v.z, e, u);
    lemma_times_within(v.z, p.x, u, e);
    lemma_times_within(p.z, v.x, e, u);
    lemma_times_within(v.x, p.y, u, e);
    lemma_times_within(p.x, v.y, e, u);
    assert((12 * square) * e == 12 * (square * e)) by (nonlinear_arith);
    assert((3 * (e * u)) * u == 12 * (square * e)) by (nonlinear_arith)
        requires
            u * u == 4 * square,
    ;
    assert(u * (2 * (e * u)) == 8 * (square * e)) by (nonlinear_arith)
        requires
            u * u == 4 * square,
    ;
    assert(52 * square * e == 52 * (square * e)) by (nonlinear_arith);
    lemma_turned_bounded(a, g, w, p.x, v.x, c.x, e, u, square);
    lemma_turned_bounded(a, g, w, p.y, v.y, c.y, e, u, square);
    lemma_turned_bounded(a, g, w, p.z, v.z, c.z, e, u, square);
}

proof fn lemma_turned_bounded(
    a: int,
    g: int,
    w: int,
    p: int,
    v: int,
    c: int,
    e: int,
    u: int,
    square: int,
)
    requires
        fixed::near(a, 0, 12 * square),
        fixed::near(g, 0, 3 * (e * u)),
        fixed::near(w, 0, u),
        fixed::near(p, 0, e),
        fixed::near(v, 0, u),
        fixed::near(c, 0, 2 * (e * u)),
        (12 * square) * e == 12 * (square * e),
        (3 * (e * u)) * u == 12 * (square * e),
        u * (2 * (e * u)) == 8 * (square * e),
    ensures
        fixed::near(turned(a, g, w, p, v, c), 0, 52 * (square * e)),
{
    lemma_times_within(a, p, 12 * square, e);
    lemma_times_within(g, v, 3 * (e * u), u);
    lemma_times_within(w, c, u, 2 * (e * u));
}

/// The squared length of a rotation, in squared steps.
pub open spec fn squared_length(q: Rotation<Fixed>) -> int {
    q.w.raw * q.w.raw + (q.v.x.raw * q.v.x.raw + q.v.y.raw * q.v.y.raw + q.v.z.raw * q.v.z.raw)
}

proof fn lemma_back_and_forth_coordinate(
    r: int,
    p: int,
    turned: int,
    exact: int,
    rest: int,
    n: int,
    l: int,
    h: int,
)
    requires
        1 <= l,
        0 <= h <= UNIT,
        fixed::near(p, 0, l * UNIT),
        fixed::near(n, UNIT * UNIT, h * UNIT),
        fixed::near(r * (UNIT * UNIT), turned, (4 * (52 * l) + 23) * (UNIT * UNIT)),
        (UNIT * UNIT) * turned == exact + rest,
        exact == (n * n) * p,
        fixed::near(rest, 0, 52 * (UNIT * UNIT) * ((4 * l + 23) * (UNIT * UNIT))),
    ensures
        fixed::near(r, p, (416 + 3 * h) * l + 1219),
{
    let u = UNIT as int;
    let square = u * u;
    let fourth = square * square;
    let k2 = 4 * (52 * l) + 23;
    let k = 4 * l + 23;
    // The rounding of the second turn.
    assert(fixed::near((r * square) * square, turned * square, (k2 * square) * square))
        by (nonlinear_arith)
        requires
            -(k2 * square) <= r * square - turned <= k2 * square,
            square > 0,
    ;
    assert((r * square) * square == r * fourth && (k2 * square) * square == k2 * fourth)
        by (nonlinear_arith)
        requires
            fourth == square * square,
    ;
    assert(square * turned == turned * square) by (nonlinear_arith);
    assert(52 * square * (k * square) == (52 * k) * fourth) by (nonlinear_arith)
        requires
            fourth == square * square,
    ;
    // The length of the rotation.
    let d = n - square;
    assert(n * n - fourth == d * (n + square)) by (nonlinear_arith)
        requires
            d == n - square,
            fourth == square * square,
    ;
    assert(h * u <= square) by (nonlinear_arith)
        requires
            h <= u,
            u > 0,
            square == u * u,
    ;
    assert(-(3 * ((h * u) * square)) <= d * (n + square) <= 3 * ((h * u) * square))
        by (nonlinear_arith)
        requires
            d == n - square,
            -(h * u) <= d <= h * u,
            0 <= h * u <= square,
    ;
    let f = n * n - fourth;
    let b = 3 * ((h * u) * square);
    lemma_times_within(f, p, b, l * u);
    assert(b * (l * u) == (3 * h * l) * fourth) by (nonlinear_arith)
        requires
            b == 3 * ((h * u) * square),
            square == u * u,
            fourth == square * square,
    ;
    assert((n * n) * p == fourth * p + f * p) by (nonlinear_arith)
        requires
            f == n * n - fourth,
    ;
    let total = (416 + 3 * h) * l + 1219;
    assert(total == k2 + 52 * k + 3 * h * l) by (nonlinear_arith)
        requires
            total == (416 + 3 * h) * l + 1219,
            k2 == 4 * (52 * l) + 23,
            k == 4 * l + 23,
    ;
    assert(total * fourth == k2 * fourth + (52 * k) * fourth + (3 * h * l) * fourth)
        by (nonlinear_arith)
        requires
            total == k2 + 52 * k + 3 * h * l,
    ;
    assert(fourth > 0) by (nonlinear_arith)
        requires
            square > 0,
            fourth == square * square,
    ;
    let x = r - p;
    assert(x * fourth == r * fourth - fourth * p) by (nonlinear_arith)
        requires
            x == r - p,
    ;
    assert(-total <= x <= total) by (nonlinear_arith)
        requires
            -(total * fourth) <= x * fourth <= total * fourth,
            fourth > 0,
    ;
}

/// Turning a vector back by a rotation and then forth gives it back, up to rounding: a vector of at
/// most `l` along every axis is off by `(416 + 3 h) l + 1219` steps at most, where the squared
/// length of the rotation is one up to `h` steps.
pub proof fn lemma_rotated_back_and_forth(q: Rotation<Fixed>, p: Vector<Fixed>, l: int, h: int)
    requires
        1 <= l,
        52 * l < 0x200_0000,
        0 <= h <= UNIT,
        bounded(p, l * UNIT),
        coefficients_within(q),
        fixed::near(squared_length(q), UNIT * UNIT, h * UNIT),
    ensures
        ({
            let r = q.rotate(q.inverse().rotate(p));
            let bound = (416 + 3 * h) * l + 1219;
            &&& fixed::near(r.x.raw as int, p.x.raw as int, bound)
            &&& fixed::near(r.y.raw as int, p.y.raw as int, bound)
            &&& fixed::near(r.z.raw as int, p.z.raw as int, bound)
        }),
{
    let v = steps(q.v);
    let w = q.w.raw as int;
    let square = UNIT * UNIT;
    let back = q.inverse().rotate(p);
    assert(steps(q.inverse().v) == opposite(v));
    lemma_rotate_close(q.inverse(), p, l);
    let y = turn(opposite(v), w, steps(p));
    assert(52 * (l * UNIT) == (52 * l) * UNIT) by (nonlinear_arith);
    lemma_rotate_close(q, back, 52 * l);
    let b = steps(back);
    let e = Triple { x: square * b.x - y.x, y: square * b.y - y.y, z: square * b.z - y.z };
    assert(square * b.x == b.x * square && square * b.y == b.y * square && square * b.z == b.z
        * square) by (nonlinear_arith);
    lemma_turn_splits(v, w, b, y, e, square as int);
    lemma_turn_bounded(v, w, e, (4 * l + 23) * square);
    lemma_turned_twice(v, w, steps(p));
    let n = w * w + v.dot(v);
    assert(n == squared_length(q));
    let t = turn(v, w, b);
    let exact = turn(v, w, y);
    let rest = turn(v, w, e);
    let r = q.rotate(back);
    lemma_back_and_forth_coordinate(
        r.x.raw as int,
        p.x.raw as int,
        t.x,
        exact.x,
        rest.x,
        n,
        l,
        h,
    );
    lemma_back_and_forth_coordinate(
        r.y.raw as int,
        p.y.raw as int,
        t.y,
        exact.y,
        rest.y,
        n,
        l,
        h,
    );
    lemma_back_and_forth_coordinate(
        r.z.raw as int,
        p.z.raw as int,
        t.z,
        exact.z,
        rest.z,
        n,
        l,
        h,
    );
}

/// A particle that was attached to a rigid body at a point is put back to that point, up to
/// rounding, when it is taken along with a body that has not moved: with the point at most `l`
/// from the body along every axis, the particle ends up `(416 + 3 h) l + 1219` steps off at most,
/// where the squared length of the body's rotation is one up to `h` steps. Its velocity is that of
/// the body there.
pub proof fn lemma_attached_particle_stays(
    s: SoftState<Fixed>,
    slots: Seq<SlotModel<Fixed>>,
    particle: int,
    body: RigidBodyHandle,
    point: Vector<Fixed>,
    l: int,
    h: int,
)
    requires
        0 <= particle < s.particles.len(),
        !s.sleeping,
        rigid_body::body_at(slots, body) is Some,
        s.particles[particle].bound_body == Some(body),
        s.particles[particle].bound_local == rigid_body::body_at(
            slots,
            body,
        )->0.position.inverse_transform_point(point),
        1 <= l,
        52 * l < 0x200_0000,
        0 <= h <= UNIT,
        ({
            let pose = rigid_body::body_at(slots, body)->0.position;
            &&& bounded(pose.translation, 0x2000_0000_0000_0000)
            &&& edge_within(pose.translation, point, l)
            &&& coefficients_within(pose.rotation)
            &&& fixed::near(squared_length(pose.rotation), UNIT * UNIT, h * UNIT)
        }),
    ensures
        ({
            let rb = rigid_body::body_at(slots, body)->0;
            let p = bodies::body_carried(s, slots).particles[particle];
            let bound = (416 + 3 * h) * l + 1219;
            &&& p.pos == rb.position.transform_point(rb.position.inverse_transform_point(point))
            &&& p.vel == rb.velocity_at_point(p.pos)
            &&& fixed::near(p.pos.x.raw as int, point.x.raw as int, bound)
            &&& fixed::near(p.pos.y.raw as int, point.y.raw as int, bound)
            &&& fixed::near(p.pos.z.raw as int, point.z.raw as int, bound)
        }),
{
    let rb = rigid_body::body_at(slots, body)->0;
    let pose = rb.position;
    let d = point.sub(pose.translation);
    assert(l * UNIT < 0x200_0000 * UNIT);
    lemma_rotated_back_and_forth(pose.rotation, d, l, h);
    let bound = (416 + 3 * h) * l + 1219;
    assert(bound < 0x2000_0000_0000_0000) by (nonlinear_arith)
        requires
            bound == (416 + 3 * h) * l + 1219,
            1 <= l,
            52 * l < 0x200_0000,
            0 <= h <= UNIT,
    ;
    let turned = pose.rotation.rotate(pose.rotation.inverse().rotate(d));
    let p = bodies::body_carried(s, slots).particles[particle];
    assert(p.pos == turned.add(pose.translation));
}

} // verus!
