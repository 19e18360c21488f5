//! What acts between bodies keeps their common centre of mass, for the fixed-point scalar and up to
//! the rounding of each projection.
use vstd::prelude::*;
use crate::dynamics::soft_body::between;
use crate::dynamics::soft_body::between::{Meeting, PairRule, Two};
use crate::dynamics::soft_body::laws;
use crate::dynamics::soft_body::model;
use crate::dynamics::soft_body::model::{SoftParticle, SoftState};
use crate::dynamics::soft_body::rounding;
use crate::fixed;
use crate::fixed::{Fixed, UNIT};
use crate::math::Vector;
use crate::scalar::Real;

verus! {

/// How far coordinates may be from the origin, in steps, for no distance to be out of range.
pub open spec fn span() -> int {
    0x2000_0000_0000
}

/// A coordinate of a vector whose computed length is `r` is at most twice that length.
proof fn lemma_coordinate(x: Fixed, square: int, r: nat)
    requires
        fixed::near(x.raw as int, 0, 2 * span()),
        x.mul(x).raw <= square,
        0 < square,
        fixed::is_root((square * UNIT) as nat, r),
    ensures
        fixed::near(x.raw as int, 0, 2 * (r as int)),
        r >= 0xffff,
{
    let a = x.raw as int;
    let k = 0x1000_0000_0000_0000int;
    assert(a * a <= k * UNIT) by (nonlinear_arith)
        requires
            -(2 * 0x2000_0000_0000) <= a <= 2 * 0x2000_0000_0000,
            k == 0x1000_0000_0000_0000,
    ;
    assert(0 <= a * a) by (nonlinear_arith);
    fixed::lemma_product_truncates(x, x);
    assert(a * a < square * UNIT + UNIT);
    assert(r >= 0xffff) by (nonlinear_arith)
        requires
            UNIT < (r + 1) * (r + 1) || UNIT == (r + 1) * (r + 1) || UNIT <= square * UNIT,
            square * UNIT < (r + 1) * (r + 1),
            square >= 1,
    ;
    assert(-(2 * r) <= a <= 2 * r) by (nonlinear_arith)
        requires
            a * a < (r + 1) * (r + 1) + UNIT,
            r >= 0xffff,
    ;
}

proof fn lemma_direction_coordinate(x: Fixed, len: Fixed)
    requires
        0 < len.raw,
        fixed::near(x.raw as int, 0, 2 * len.raw),
    ensures
        fixed::near(x.div(len).raw as int, 0, 2 * UNIT),
{
    fixed::lemma_quotient_bounded(x, len);
    let q = fixed::magnitude(x.div(len).raw as int);
    let m = fixed::magnitude(x.raw as int);
    let r = len.raw as int;
    assert(q <= 2 * UNIT) by (nonlinear_arith)
        requires
            q * r <= m * UNIT,
            m <= 2 * r,
            0 < r,
    ;
}

/// The direction of a vector that is not next to nothing has coordinates of at most two.
proof fn lemma_direction_bounded(delta: Vector<Fixed>)
    requires
        rounding::bounded(delta, 2 * span()),
        delta.length().raw > 0,
    ensures
        rounding::bounded(delta.div(delta.length()), 2 * UNIT),
        delta.length().raw < 8 * span(),
{
    lemma_square(delta.x);
    lemma_square(delta.y);
    lemma_square(delta.z);
    let square = delta.dot(delta).raw as int;
    assert(square == delta.x.mul(delta.x).raw + delta.y.mul(delta.y).raw + delta.z.mul(
        delta.z,
    ).raw);
    assert(square > 0);
    let n = (square * UNIT) as nat;
    let r = fixed::root(n);
    fixed::lemma_root_is_root(n);
    assert(r < 8 * span()) by (nonlinear_arith)
        requires
            r * r <= n,
            n <= 3 * 0x1000_0000_0000_0000 * UNIT,
            span() == 0x2000_0000_0000,
    ;
    assert(delta.length().raw == r);
    lemma_coordinate(delta.x, square, r);
    lemma_coordinate(delta.y, square, r);
    lemma_coordinate(delta.z, square, r);
    lemma_direction_coordinate(delta.x, delta.length());
    lemma_direction_coordinate(delta.y, delta.length());
    lemma_direction_coordinate(delta.z, delta.length());
}

proof fn lemma_square(x: Fixed)
    requires
        fixed::near(x.raw as int, 0, 2 * span()),
    ensures
        0 <= x.mul(x).raw <= 0x1000_0000_0000_0000,
{
    let a = x.raw as int;
    assert(0 <= a * a <= 0x1000_0000_0000_0000 * UNIT) by (nonlinear_arith)
        requires
            -(2 * 0x2000_0000_0000) <= a <= 2 * 0x2000_0000_0000,
    ;
    fixed::lemma_product_truncates(x, x);
}

/// What two particles with the weights `wa` and `wb` move along one axis of a direction.
proof fn lemma_shares(n: Fixed, wa: Fixed, wb: Fixed, d: Fixed, r: int)
    requires
        fixed::near(n.raw as int, 0, 2 * UNIT),
        wa.raw > 0,
        wb.raw > 0,
        0 <= r < 8 * span(),
        fixed::magnitude(wa.raw * d.raw) <= r * UNIT,
        fixed::magnitude(wb.raw * d.raw) <= r * UNIT,
    ensures
        ({
            let xa = n.mul(wa.mul(d)).raw as int;
            let xb = n.mul(wb.mul(d)).raw as int;
            &&& fixed::near(wb.raw * xa, wa.raw * xb, 3 * (wa.raw + wb.raw))
            &&& fixed::near(xa, 0, 2 * r)
            &&& fixed::near(xb, 0, 2 * r)
        }),
{
    let ea = wa.mul(d);
    let eb = wb.mul(d);
    fixed::lemma_product_truncates(wa, d);
    fixed::lemma_product_truncates(wb, d);
    lemma_along(n, ea, r);
    lemma_along(n, eb, r);
    let a = wa.raw as int;
    let b = wb.raw as int;
    let pa = ea.raw as int;
    let pb = eb.raw as int;
    let ra = pa * UNIT - a * d.raw;
    let rb = pb * UNIT - b * d.raw;
    let t = b * pa - a * pb;
    assert(UNIT * t == b * ra - a * rb) by (nonlinear_arith)
        requires
            ra == pa * UNIT - a * d.raw,
            rb == pb * UNIT - b * d.raw,
            t == b * pa - a * pb,
    ;
    assert(-((a + b) * UNIT) <= b * ra - a * rb <= (a + b) * UNIT) by (nonlinear_arith)
        requires
            -UNIT <= ra <= UNIT,
            -UNIT <= rb <= UNIT,
            a > 0,
            b > 0,
    ;
    assert(-(a + b) <= t <= a + b) by (nonlinear_arith)
        requires
            -((a + b) * UNIT) <= UNIT * t <= (a + b) * UNIT,
    ;
    let xa = n.mul(ea).raw as int;
    let xb = n.mul(eb).raw as int;
    let c = n.raw as int;
    let sa = xa * UNIT - c * pa;
    let sb = xb * UNIT - c * pb;
    let u = b * xa - a * xb;
    assert(b * sa == (b * xa) * UNIT - c * (b * pa)) by (nonlinear_arith)
        requires
            sa == xa * UNIT - c * pa,
    ;
    assert(a * sb == (a * xb) * UNIT - c * (a * pb)) by (nonlinear_arith)
        requires
            sb == xb * UNIT - c * pb,
    ;
    assert(c * t == c * (b * pa) - c * (a * pb)) by (nonlinear_arith)
        requires
            t == b * pa - a * pb,
    ;
    assert(UNIT * u == (b * sa - a * sb) + c * t);
    assert(-((a + b) * UNIT) <= b * sa - a * sb <= (a + b) * UNIT) by (nonlinear_arith)
        requires
            -UNIT <= sa <= UNIT,
            -UNIT <= sb <= UNIT,
            a > 0,
            b > 0,
    ;
    assert(-(2 * ((a + b) * UNIT)) <= c * t <= 2 * ((a + b) * UNIT)) by (nonlinear_arith)
        requires
            -(a + b) <= t <= a + b,
            -(2 * UNIT) <= c <= 2 * UNIT,
    ;
    assert(-(3 * (a + b)) <= u <= 3 * (a + b)) by (nonlinear_arith)
        requires
            -(3 * ((a + b) * UNIT)) <= UNIT * u <= 3 * ((a + b) * UNIT),
    ;
}

proof fn lemma_along(n: Fixed, e: Fixed, r: int)
    requires
        fixed::near(n.raw as int, 0, 2 * UNIT),
        0 <= r < 8 * span(),
        fixed::near(e.raw as int, 0, r),
    ensures
        fixed::near(n.mul(e).raw * UNIT, n.raw * e.raw, UNIT as int),
        fixed::near(n.mul(e).raw as int, 0, 2 * r),
{
    let c = n.raw as int;
    let x = e.raw as int;
    assert(-(2 * r * UNIT) <= c * x <= 2 * r * UNIT) by (nonlinear_arith)
        requires
            -(2 * UNIT) <= c <= 2 * UNIT,
            -r <= x <= r,
    ;
    fixed::lemma_product_truncates(n, e);
}

/// Whether a rule pushes apart to its reach, which is at most `reach`, with no negative compliance.
pub open spec fn rule_within(rule: PairRule<Fixed>, reach: int) -> bool {
    &&& rule.reach == rule.rest
    &&& 0 <= rule.rest.raw <= reach
    &&& rule.compliance.raw >= 0
}

/// How far a particle is moved along an axis.
pub open spec fn shift(p: SoftParticle<Fixed>, q: SoftParticle<Fixed>, axis: int) -> int {
    rounding::coord(q.pos, axis) - rounding::coord(p.pos, axis)
}

/// The multiplier of a projection that pushes two particles apart.
proof fn lemma_multiplier(dist: Fixed, wa: Fixed, wb: Fixed, rule: PairRule<Fixed>, reach: int)
    requires
        wa.raw > 0,
        wb.raw > 0,
        rule_within(rule, reach),
        0 < dist.raw < rule.rest.raw,
    ensures
        ({
            let d = dist.sub(rule.rest).neg().sub(rule.compliance.mul(Fixed::zero())).div(
                wa.add(wb).add(rule.compliance),
            );
            &&& fixed::magnitude(wa.raw * d.raw) <= reach * UNIT
            &&& fixed::magnitude(wb.raw * d.raw) <= reach * UNIT
        }),
{
    let nothing = rule.compliance.mul(Fixed::zero());
    assert(nothing.raw == 0) by {
        let m = fixed::magnitude(rule.compliance.raw as int);
        assert(m * 0 == 0) by (nonlinear_arith);
        assert(0nat / UNIT as nat == 0);
    }
    let num = dist.sub(rule.rest).neg().sub(nothing);
    assert(num.raw == rule.rest.raw - dist.raw);
    let w = wa.add(wb).add(rule.compliance);
    let d = num.div(w);
    fixed::lemma_quotient_bounded(num, w);
    let m = fixed::magnitude(d.raw as int) as int;
    let x = d.raw as int;
    let a = wa.raw as int;
    let b = wb.raw as int;
    let c = w.raw as int;
    assert(-(m * c) <= a * x <= m * c) by (nonlinear_arith)
        requires
            0 < a <= c,
            -m <= x <= m,
            0 <= m,
    ;
    assert(-(m * c) <= b * x <= m * c) by (nonlinear_arith)
        requires
            0 < b <= c,
            -m <= x <= m,
            0 <= m,
    ;
}

/// A projection of two particles moves no other, changes no weight, and moves the two such that
/// their common centre of mass stays up to rounding: with the reciprocal masses `wa` and `wb` the
/// shifts `da` and `db` meet `wb * da + wa * db == 0` up to `3 (wa + wb)` steps.
pub proof fn lemma_pair_keeps_centre(
    s: Two<Fixed>,
    i: int,
    j: int,
    rule: PairRule<Fixed>,
    reach: int,
)
    requires
        0 <= i < s.a.len(),
        0 <= j < s.b.len(),
        s.a[i].inv_mass.raw > 0,
        s.b[j].inv_mass.raw > 0,
        rounding::bounded(s.a[i].pos, span()),
        rounding::bounded(s.b[j].pos, span()),
        rule_within(rule, reach),
        reach < 8 * span(),
    ensures
        ({
            let t = between::pair_met(s, i, j, rule);
            let wa = s.a[i].inv_mass.raw;
            let wb = s.b[j].inv_mass.raw;
            &&& model::same_particles(s.a, t.a)
            &&& model::same_particles(s.b, t.b)
            &&& forall|k: int|
                0 <= k < s.a.len() && k != i ==> (#[trigger] t.a[k]).pos == s.a[k].pos
            &&& forall|k: int|
                0 <= k < s.b.len() && k != j ==> (#[trigger] t.b[k]).pos == s.b[k].pos
            &&& forall|axis: int|
                #![trigger shift(s.a[i], t.a[i], axis)]
                {
                    let da = shift(s.a[i], t.a[i], axis);
                    let db = shift(s.b[j], t.b[j], axis);
                    &&& fixed::near(wb * da + wa * db, 0, 3 * (wa + wb))
                    &&& fixed::near(da, 0, 2 * reach)
                    &&& fixed::near(db, 0, 2 * reach)
                }
        }),
{
    let t = between::pair_met(s, i, j, rule);
    let wa = s.a[i].inv_mass;
    let wb = s.b[j].inv_mass;
    let delta = s.a[i].pos.sub(s.b[j].pos);
    let dist = delta.length();
    let w_sum = wa.add(wb);
    if rule.acts_at(dist) && Fixed::zero().lt(w_sum) {
        assert(dist.raw > 0);
        lemma_direction_bounded(delta);
        lemma_multiplier(dist, wa, wb, rule, reach);
        let n = delta.div(dist);
        let d = dist.sub(rule.rest).neg().sub(rule.compliance.mul(Fixed::zero())).div(
            w_sum.add(rule.compliance),
        );
        lemma_shares(n.x, wa, wb, d, reach);
        lemma_shares(n.y, wa, wb, d, reach);
        lemma_shares(n.z, wa, wb, d, reach);
        let fa = n.scale(wa.mul(d));
        let fb = n.scale(wb.mul(d));
        assert(t.a[i].pos == s.a[i].pos.add(fa));
        assert(t.b[j].pos == s.b[j].pos.sub(fb));
        assert forall|axis: int| #![trigger shift(s.a[i], t.a[i], axis)] {
            let da = shift(s.a[i], t.a[i], axis);
            let db = shift(s.b[j], t.b[j], axis);
            &&& fixed::near(wb.raw * da + wa.raw * db, 0, 3 * (wa.raw + wb.raw))
            &&& fixed::near(da, 0, 2 * reach)
            &&& fixed::near(db, 0, 2 * reach)
        } by {
            let xa = rounding::coord(fa, axis);
            let xb = rounding::coord(fb, axis);
            assert(shift(s.a[i], t.a[i], axis) == xa);
            assert(shift(s.b[j], t.b[j], axis) == -xb);
            assert(wa.raw * (-xb) == -(wa.raw * xb)) by (nonlinear_arith);
        }
    } else {
        assert forall|axis: int| #![trigger shift(s.a[i], t.a[i], axis)] {
            let da = shift(s.a[i], t.a[i], axis);
            let db = shift(s.b[j], t.b[j], axis);
            &&& fixed::near(wb.raw * da + wa.raw * db, 0, 3 * (wa.raw + wb.raw))
            &&& fixed::near(da, 0, 2 * reach)
            &&& fixed::near(db, 0, 2 * reach)
        } by {
            assert(shift(s.a[i], t.a[i], axis) == 0 && shift(s.b[j], t.b[j], axis) == 0);
            assert(wb.raw * 0 == 0 && wa.raw * 0 == 0);
        }
    }
}

/// The mass of a particle that can move, in parts of which `unit` make up the reciprocal of a step.
pub open spec fn mass(p: SoftParticle<Fixed>, unit: int) -> int {
    if p.is_pinned() {
        0
    } else {
        unit / p.inv_mass.raw as int
    }
}

/// Whether `unit` is fine enough for the mass of every particle that can move to be a whole number
/// of parts, and none is heavier than `heaviest`.
pub open spec fn masses_within(ps: Seq<SoftParticle<Fixed>>, unit: int, heaviest: int) -> bool {
    forall|i: int|
        0 <= i < ps.len() && !(#[trigger] ps[i]).is_pinned() ==> {
            &&& ps[i].inv_mass.raw > 0
            &&& mass(ps[i], unit) * ps[i].inv_mass.raw == unit
            &&& mass(ps[i], unit) <= heaviest
        }
}

/// Whether all particles are within `bound` of the origin along every axis.
pub open spec fn all_bounded(ps: Seq<SoftParticle<Fixed>>, bound: int) -> bool {
    forall|i: int| 0 <= i < ps.len() ==> rounding::bounded((#[trigger] ps[i]).pos, bound)
}

/// The sum of mass times coordinate over the first `n` particles: the total mass times where the
/// centre of mass is along the axis.
pub open spec fn moment(ps: Seq<SoftParticle<Fixed>>, unit: int, axis: int, n: nat) -> int
    decreases n,
{
    if n == 0 {
        0
    } else {
        moment(ps, unit, axis, (n - 1) as nat) + mass(ps[n - 1], unit) * rounding::coord(
            ps[n - 1].pos,
            axis,
        )
    }
}

proof fn lemma_moment_of_one(
    ps: Seq<SoftParticle<Fixed>>,
    qs: Seq<SoftParticle<Fixed>>,
    unit: int,
    axis: int,
    i: int,
    n: nat,
)
    requires
        model::same_particles(ps, qs),
        n <= ps.len(),
        0 <= i < ps.len(),
        forall|k: int| 0 <= k < ps.len() && k != i ==> (#[trigger] qs[k]).pos == ps[k].pos,
    ensures
        moment(qs, unit, axis, n) == moment(ps, unit, axis, n) + (if i < n {
            mass(ps[i], unit) * shift(ps[i], qs[i], axis)
        } else {
            0
        }),
    decreases n,
{
    if n > 0 {
        lemma_moment_of_one(ps, qs, unit, axis, i, (n - 1) as nat);
        let m = mass(ps[n - 1], unit);
        assert(mass(qs[n - 1], unit) == m) by {
            assert(ps[n - 1].inv_mass == qs[n - 1].inv_mass);
        }
        if n - 1 == i {
            let a = rounding::coord(ps[i].pos, axis);
            let b = rounding::coord(qs[i].pos, axis);
            assert(m * (b - a) == m * b - m * a) by (nonlinear_arith);
        }
    }
}

proof fn lemma_weighed(ma: int, mb: int, wa: int, wb: int, unit: int, da: int, db: int)
    requires
        ma * wa == unit,
        mb * wb == unit,
        ma > 0,
        mb > 0,
        unit > 0,
        fixed::near(wb * da + wa * db, 0, 3 * (wa + wb)),
    ensures
        fixed::near(ma * da + mb * db, 0, 3 * (ma + mb)),
{
    let p = ma * mb;
    let k = wb * da + wa * db;
    let s = ma * da + mb * db;
    assert(p * (wb * da) == (mb * wb) * (ma * da)) by (nonlinear_arith)
        requires
            p == ma * mb,
    ;
    assert(p * (wa * db) == (ma * wa) * (mb * db)) by (nonlinear_arith)
        requires
            p == ma * mb,
    ;
    assert(p * k == p * (wb * da) + p * (wa * db)) by (nonlinear_arith)
        requires
            k == wb * da + wa * db,
    ;
    assert(unit * s == unit * (ma * da) + unit * (mb * db)) by (nonlinear_arith)
        requires
            s == ma * da + mb * db,
    ;
    assert(p * wa == (ma * wa) * mb && p * wb == (mb * wb) * ma) by (nonlinear_arith)
        requires
            p == ma * mb,
    ;
    assert(p * (wa + wb) == p * wa + p * wb) by (nonlinear_arith);
    assert(unit * (ma + mb) == unit * ma + unit * mb) by (nonlinear_arith);
    assert(p > 0) by (nonlinear_arith)
        requires
            p == ma * mb,
            ma > 0,
            mb > 0,
    ;
    let w = wa + wb;
    assert(-(3 * (p * w)) <= p * k <= 3 * (p * w)) by (nonlinear_arith)
        requires
            p > 0,
            -(3 * w) <= k <= 3 * w,
    ;
    let m = ma + mb;
    assert(-(3 * m) <= s <= 3 * m) by (nonlinear_arith)
        requires
            unit > 0,
            -(3 * (unit * m)) <= unit * s <= 3 * (unit * m),
    ;
}

/// What two sets of particles have in common before and after they met: their weights, and their
/// centre of mass up to `drift`; none is further out than `room`.
spec fn settled(
    s: Two<Fixed>,
    t: Two<Fixed>,
    unit: int,
    room: int,
    drift: int,
) -> bool {
    &&& model::same_particles(s.a, t.a)
    &&& model::same_particles(s.b, t.b)
    &&& all_bounded(t.a, room)
    &&& all_bounded(t.b, room)
    &&& forall|axis: int|
        fixed::near(
            #[trigger] moment(t.a, unit, axis, t.a.len()) + moment(t.b, unit, axis, t.b.len()),
            moment(s.a, unit, axis, s.a.len()) + moment(s.b, unit, axis, s.b.len()),
            drift,
        )
}

proof fn lemma_pair_settles(
    s: Two<Fixed>,
    i: int,
    j: int,
    rule: PairRule<Fixed>,
    reach: int,
    unit: int,
    heaviest: int,
    room: int,
)
    requires
        0 <= i < s.a.len(),
        0 <= j < s.b.len(),
        !s.a[i].is_pinned(),
        !s.b[j].is_pinned(),
        unit > 0,
        masses_within(s.a, unit, heaviest),
        masses_within(s.b, unit, heaviest),
        all_bounded(s.a, room),
        all_bounded(s.b, room),
        rule_within(rule, reach),
        0 <= reach,
        room + 2 * reach <= span(),
    ensures
        settled(s, between::pair_met(s, i, j, rule), unit, room + 2 * reach, 6 * heaviest),
{
    let t = between::pair_met(s, i, j, rule);
    assert(rounding::bounded(s.a[i].pos, room) && rounding::bounded(s.b[j].pos, room));
    assert(s.a[i].inv_mass.raw > 0 && s.b[j].inv_mass.raw > 0);
    lemma_pair_keeps_centre(s, i, j, rule, reach);
    let ma = mass(s.a[i], unit);
    let mb = mass(s.b[j], unit);
    let wa = s.a[i].inv_mass.raw as int;
    let wb = s.b[j].inv_mass.raw as int;
    assert(ma > 0) by (nonlinear_arith)
        requires
            ma * wa == unit,
            unit > 0,
            wa > 0,
    ;
    assert(mb > 0) by (nonlinear_arith)
        requires
            mb * wb == unit,
            unit > 0,
            wb > 0,
    ;
    assert forall|axis: int|
        fixed::near(
            #[trigger] moment(t.a, unit, axis, t.a.len()) + moment(t.b, unit, axis, t.b.len()),
            moment(s.a, unit, axis, s.a.len()) + moment(s.b, unit, axis, s.b.len()),
            6 * heaviest,
        ) by {
        let da = shift(s.a[i], t.a[i], axis);
        let db = shift(s.b[j], t.b[j], axis);
        lemma_weighed(ma, mb, wa, wb, unit, da, db);
        lemma_moment_of_one(s.a, t.a, unit, axis, i, s.a.len());
        lemma_moment_of_one(s.b, t.b, unit, axis, j, s.b.len());
    }
    lemma_still_bounded(s.a, t.a, i, room, reach);
    lemma_still_bounded(s.b, t.b, j, room, reach);
}

proof fn lemma_still_bounded(
    ps: Seq<SoftParticle<Fixed>>,
    qs: Seq<SoftParticle<Fixed>>,
    i: int,
    room: int,
    reach: int,
)
    requires
        ps.len() == qs.len(),
        0 <= i < ps.len(),
        all_bounded(ps, room),
        0 <= reach,
        forall|k: int| 0 <= k < ps.len() && k != i ==> (#[trigger] qs[k]).pos == ps[k].pos,
        fixed::near(shift(ps[i], qs[i], 0), 0, 2 * reach),
        fixed::near(shift(ps[i], qs[i], 1), 0, 2 * reach),
        fixed::near(shift(ps[i], qs[i], 2), 0, 2 * reach),
    ensures
        all_bounded(qs, room + 2 * reach),
{
    assert forall|k: int| 0 <= k < qs.len() implies rounding::bounded(
        (#[trigger] qs[k]).pos,
        room + 2 * reach,
    ) by {
        assert(rounding::bounded(ps[k].pos, room));
    }
}

proof fn lemma_settled_twice(
    s: Two<Fixed>,
    t: Two<Fixed>,
    u: Two<Fixed>,
    unit: int,
    room: int,
    further: int,
    drift: int,
    more: int,
)
    requires
        settled(s, t, unit, room, drift),
        settled(t, u, unit, further, more),
    ensures
        settled(s, u, unit, further, drift + more),
{
    assert forall|axis: int|
        fixed::near(
            #[trigger] moment(u.a, unit, axis, u.a.len()) + moment(u.b, unit, axis, u.b.len()),
            moment(s.a, unit, axis, s.a.len()) + moment(s.b, unit, axis, s.b.len()),
            drift + more,
        ) by {
        let middle = moment(t.a, unit, axis, t.a.len()) + moment(t.b, unit, axis, t.b.len());
        assert(fixed::near(
            middle,
            moment(s.a, unit, axis, s.a.len()) + moment(s.b, unit, axis, s.b.len()),
            drift,
        ));
    }
    lemma_same_twice(s.a, t.a, u.a);
    lemma_same_twice(s.b, t.b, u.b);
}

proof fn lemma_same_twice(
    ps: Seq<SoftParticle<Fixed>>,
    qs: Seq<SoftParticle<Fixed>>,
    rs: Seq<SoftParticle<Fixed>>,
)
    requires
        model::same_particles(ps, qs),
        model::same_particles(qs, rs),
    ensures
        model::same_particles(ps, rs),
{
    assert forall|i: int|
        #![trigger ps[i]]
        #![trigger rs[i]]
        0 <= i < ps.len() implies ps[i].inv_mass == rs[i].inv_mass && ps[i].bound_body
        == rs[i].bound_body && ps[i].bound_local == rs[i].bound_local by {
        assert(qs[i].inv_mass == rs[i].inv_mass);
    }
}

proof fn lemma_same_masses(
    ps: Seq<SoftParticle<Fixed>>,
    qs: Seq<SoftParticle<Fixed>>,
    unit: int,
    heaviest: int,
)
    requires
        model::same_particles(ps, qs),
        masses_within(ps, unit, heaviest),
    ensures
        masses_within(qs, unit, heaviest),
{
    assert forall|i: int| 0 <= i < qs.len() && !(#[trigger] qs[i]).is_pinned() implies {
        &&& qs[i].inv_mass.raw > 0
        &&& mass(qs[i], unit) * qs[i].inv_mass.raw == unit
        &&& mass(qs[i], unit) <= heaviest
    } by {
        assert(ps[i].inv_mass == qs[i].inv_mass);
        assert(!ps[i].is_pinned());
    }
}

proof fn lemma_times_one_more(x: int, n: int)
    ensures
        x * n == x * (n - 1) + x,
{
    assert(x * n == x * (n - 1) + x) by (nonlinear_arith);
}

proof fn lemma_pairs_settle(
    s: Two<Fixed>,
    pairs: Seq<(usize, usize)>,
    rule: PairRule<Fixed>,
    reach: int,
    unit: int,
    heaviest: int,
    room: int,
    n: nat,
)
    requires
        n <= pairs.len(),
        laws::pairs_movable(pairs, s.a, s.b),
        unit > 0,
        masses_within(s.a, unit, heaviest),
        masses_within(s.b, unit, heaviest),
        all_bounded(s.a, room),
        all_bounded(s.b, room),
        rule_within(rule, reach),
        0 <= reach,
        room + 2 * reach * n <= span(),
    ensures
        settled(
            s,
            between::pairs_met(s, pairs, rule, n),
            unit,
            room + 2 * reach * n,
            6 * heaviest * n,
        ),
    decreases n,
{
    if n > 0 {
        let m = (n - 1) as nat;
        lemma_times_one_more(2 * reach, n as int);
        lemma_times_one_more(6 * heaviest, n as int);
        lemma_pairs_settle(s, pairs, rule, reach, unit, heaviest, room, m);
        let t = between::pairs_met(s, pairs, rule, m);
        let i = pairs[m as int].0 as int;
        let j = pairs[m as int].1 as int;
        assert(i < s.a.len() && j < s.b.len() && !s.a[i].is_pinned() && !s.b[j].is_pinned());
        assert(s.a[i].inv_mass == t.a[i].inv_mass && s.b[j].inv_mass == t.b[j].inv_mass);
        lemma_same_masses(s.a, t.a, unit, heaviest);
        lemma_same_masses(s.b, t.b, unit, heaviest);
        lemma_pair_settles(t, i, j, rule, reach, unit, heaviest, room + 2 * reach * m);
        lemma_settled_twice(
            s,
            t,
            between::pairs_met(s, pairs, rule, n),
            unit,
            room + 2 * reach * m,
            room + 2 * reach * n,
            6 * heaviest * m,
            6 * heaviest,
        );
    } else {
        assert(2 * reach * 0 == 0 && 6 * heaviest * 0 == 0) by (nonlinear_arith);
    }
}

/// The sum of mass times coordinate over the first `n` places of a set.
pub open spec fn set_moment(
    s: Seq<Option<SoftState<Fixed>>>,
    unit: int,
    axis: int,
    n: nat,
) -> int
    decreases n,
{
    if n == 0 {
        0
    } else {
        set_moment(s, unit, axis, (n - 1) as nat) + match s[n - 1] {
            Some(b) => moment(b.particles, unit, axis, b.particles.len()),
            None => 0,
        }
    }
}

/// Whether the bodies of a set have masses in whole parts, of at most `heaviest`.
pub open spec fn set_masses_within(
    s: Seq<Option<SoftState<Fixed>>>,
    unit: int,
    heaviest: int,
) -> bool {
    forall|k: int|
        0 <= k < s.len() ==> ((#[trigger] s[k]) matches Some(b) ==> masses_within(
            b.particles,
            unit,
            heaviest,
        ) && b.particles.len() <= usize::MAX)
}

/// Whether the particles of a set are within `bound` of the origin along every axis.
pub open spec fn set_bounded(s: Seq<Option<SoftState<Fixed>>>, bound: int) -> bool {
    forall|k: int|
        0 <= k < s.len() ==> ((#[trigger] s[k]) matches Some(b) ==> all_bounded(
            b.particles,
            bound,
        ))
}

/// Whether what acts between any two bodies of a set reaches at most `reach` far.
pub open spec fn rules_within(
    kind: Meeting,
    s: Seq<Option<SoftState<Fixed>>>,
    dt: Fixed,
    reach: int,
) -> bool {
    forall|i: int, j: int|
        #![trigger s[i], s[j]]
        0 <= i < j < s.len() && s[i] is Some && s[j] is Some && kind.rule(
            s[i]->0,
            s[j]->0,
            dt,
        ) is Some ==> rule_within(kind.rule(s[i]->0, s[j]->0, dt)->0, reach)
}

/// How many pairs of particles are projected where the bodies at two places meet.
pub open spec fn meetings_at(
    kind: Meeting,
    s: Seq<Option<SoftState<Fixed>>>,
    i: int,
    j: int,
    dt: Fixed,
) -> nat {
    match (s[i], s[j]) {
        (Some(a), Some(b)) => match kind.rule(a, b, dt) {
            Some(rule) => between::found(
                a.particles,
                b.particles,
                rule,
                a.particles.len(),
            ).len(),
            None => 0,
        },
        _ => 0,
    }
}

/// How many pairs of particles are projected where body `i` meets those after it among the first
/// `n`.
pub open spec fn meetings_in_row(
    kind: Meeting,
    s: Seq<Option<SoftState<Fixed>>>,
    i: nat,
    dt: Fixed,
    n: nat,
) -> nat
    decreases n,
{
    if n <= i + 1 {
        0
    } else {
        meetings_in_row(kind, s, i, dt, (n - 1) as nat) + meetings_at(
            kind,
            kind.row(s, i, dt, (n - 1) as nat),
            i as int,
            n - 1,
            dt,
        )
    }
}

/// How many pairs of particles are projected where the first `n` bodies meet all after them.
pub open spec fn meetings_in_pass(
    kind: Meeting,
    s: Seq<Option<SoftState<Fixed>>>,
    dt: Fixed,
    n: nat,
) -> nat
    decreases n,
{
    if n == 0 {
        0
    } else {
        meetings_in_pass(kind, s, dt, (n - 1) as nat) + meetings_in_row(
            kind,
            kind.pass(s, dt, (n - 1) as nat),
            (n - 1) as nat,
            dt,
            s.len(),
        )
    }
}

/// How many pairs of particles are projected in `k` passes.
pub open spec fn meetings(
    kind: Meeting,
    s: Seq<Option<SoftState<Fixed>>>,
    dt: Fixed,
    k: nat,
) -> nat
    decreases k,
{
    if k == 0 {
        0
    } else {
        meetings(kind, s, dt, (k - 1) as nat) + meetings_in_pass(
            kind,
            kind.passes(s, dt, (k - 1) as nat),
            dt,
            s.len(),
        )
    }
}

/// The same bodies with the same particles, possibly at other places.
pub open spec fn same_bodies(
    s: Seq<Option<SoftState<Fixed>>>,
    t: Seq<Option<SoftState<Fixed>>>,
) -> bool {
    &&& s.len() == t.len()
    &&& forall|k: int|
        #![trigger s[k]]
        #![trigger t[k]]
        0 <= k < s.len() ==> match s[k] {
            Some(b) => {
                &&& t[k] matches Some(c)
                &&& c == b.with_particles(c.particles)
                &&& model::same_particles(b.particles, c.particles)
            },
            None => t[k] is None,
        }
}

/// What a set has kept: its bodies, and their common centre of mass up to `drift`; no particle is
/// further out than `room`.
spec fn kept(
    s: Seq<Option<SoftState<Fixed>>>,
    t: Seq<Option<SoftState<Fixed>>>,
    unit: int,
    room: int,
    drift: int,
) -> bool {
    &&& same_bodies(s, t)
    &&& set_bounded(t, room)
    &&& forall|axis: int|
        fixed::near(
            #[trigger] set_moment(t, unit, axis, t.len()),
            set_moment(s, unit, axis, s.len()),
            drift,
        )
}

proof fn lemma_set_moment_update(
    s: Seq<Option<SoftState<Fixed>>>,
    i: int,
    a: SoftState<Fixed>,
    unit: int,
    axis: int,
    n: nat,
)
    requires
        n <= s.len(),
        0 <= i < s.len(),
        s[i] is Some,
    ensures
        set_moment(s.update(i, Some(a)), unit, axis, n) == set_moment(s, unit, axis, n) + (if i
            < n {
            moment(a.particles, unit, axis, a.particles.len()) - moment(
                s[i]->0.particles,
                unit,
                axis,
                s[i]->0.particles.len(),
            )
        } else {
            0
        }),
    decreases n,
{
    if n > 0 {
        lemma_set_moment_update(s, i, a, unit, axis, (n - 1) as nat);
    }
}

proof fn lemma_kept_twice(
    s: Seq<Option<SoftState<Fixed>>>,
    t: Seq<Option<SoftState<Fixed>>>,
    u: Seq<Option<SoftState<Fixed>>>,
    unit: int,
    room: int,
    further: int,
    drift: int,
    more: int,
)
    requires
        kept(s, t, unit, room, drift),
        kept(t, u, unit, further, more),
    ensures
        kept(s, u, unit, further, drift + more),
{
    assert forall|k: int|
        #![trigger s[k]]
        #![trigger u[k]]
        0 <= k < s.len() implies match s[k] {
        Some(b) => {
            &&& u[k] matches Some(c)
            &&& c == b.with_particles(c.particles)
            &&& model::same_particles(b.particles, c.particles)
        },
        None => u[k] is None,
    } by {
        assert(t[k] is Some <==> s[k] is Some);
        if s[k] is Some {
            lemma_same_twice(s[k]->0.particles, t[k]->0.particles, u[k]->0.particles);
        }
    }
    assert forall|axis: int|
        fixed::near(
            #[trigger] set_moment(u, unit, axis, u.len()),
            set_moment(s, unit, axis, s.len()),
            drift + more,
        ) by {
        assert(fixed::near(
            set_moment(t, unit, axis, t.len()),
            set_moment(s, unit, axis, s.len()),
            drift,
        ));
    }
}

proof fn lemma_conditions_kept(
    kind: Meeting,
    s: Seq<Option<SoftState<Fixed>>>,
    t: Seq<Option<SoftState<Fixed>>>,
    dt: Fixed,
    reach: int,
    unit: int,
    heaviest: int,
)
    requires
        same_bodies(s, t),
        set_masses_within(s, unit, heaviest),
        rules_within(kind, s, dt, reach),
    ensures
        set_masses_within(t, unit, heaviest),
        rules_within(kind, t, dt, reach),
{
    assert forall|k: int| 0 <= k < t.len() implies ((#[trigger] t[k]) matches Some(b)
        ==> masses_within(b.particles, unit, heaviest) && b.particles.len() <= usize::MAX) by {
        if t[k] is Some {
            assert(s[k] is Some);
            lemma_same_masses(s[k]->0.particles, t[k]->0.particles, unit, heaviest);
        }
    }
    assert forall|i: int, j: int|
        #![trigger t[i], t[j]]
        0 <= i < j < t.len() && t[i] is Some && t[j] is Some && kind.rule(
            t[i]->0,
            t[j]->0,
            dt,
        ) is Some implies rule_within(kind.rule(t[i]->0, t[j]->0, dt)->0, reach) by {
        assert(s[i] is Some && s[j] is Some);
        assert(kind.rule(s[i]->0, s[j]->0, dt) == kind.rule(t[i]->0, t[j]->0, dt));
    }
}

proof fn lemma_meeting_settles(
    kind: Meeting,
    s: Seq<Option<SoftState<Fixed>>>,
    i: int,
    j: int,
    dt: Fixed,
    reach: int,
    unit: int,
    heaviest: int,
    room: int,
)
    requires
        0 <= i < j < s.len(),
        unit > 0,
        set_masses_within(s, unit, heaviest),
        set_bounded(s, room),
        rules_within(kind, s, dt, reach),
        0 <= reach,
        0 <= heaviest,
        room + 2 * reach * meetings_at(kind, s, i, j, dt) <= span(),
    ensures
        kept(
            s,
            kind.places(s, i, j, dt),
            unit,
            room + 2 * reach * meetings_at(kind, s, i, j, dt),
            6 * heaviest * meetings_at(kind, s, i, j, dt),
        ),
{
    let n = meetings_at(kind, s, i, j, dt);
    let t = kind.places(s, i, j, dt);
    let further = room + 2 * reach * n;
    assert(0 <= 2 * reach * n && 0 <= 6 * heaviest * n) by (nonlinear_arith)
        requires
            0 <= reach,
            0 <= heaviest,
            0 <= n,
    ;
    lemma_roomier(s, room, further);
    if let (Some(a), Some(b)) = (s[i], s[j]) {
        if let Some(rule) = kind.rule(a, b, dt) {
            let pairs = between::found(a.particles, b.particles, rule, a.particles.len());
            let two = Two { a: a.particles, b: b.particles };
            laws::lemma_found_movable(a.particles, b.particles, rule, a.particles.len());
            lemma_pairs_settle(two, pairs, rule, reach, unit, heaviest, room, n);
            let met = between::bodies_met(a.particles, b.particles, rule);
            let a2 = SoftState { particles: met.a, ..a };
            let b2 = SoftState { particles: met.b, ..b };
            let half = s.update(i, Some(a2));
            assert(t == half.update(j, Some(b2)));
            assert forall|axis: int|
                fixed::near(
                    #[trigger] set_moment(t, unit, axis, t.len()),
                    set_moment(s, unit, axis, s.len()),
                    6 * heaviest * n,
                ) by {
                lemma_set_moment_update(s, i, a2, unit, axis, s.len());
                lemma_set_moment_update(half, j, b2, unit, axis, s.len());
                assert(fixed::near(
                    moment(met.a, unit, axis, met.a.len()) + moment(met.b, unit, axis, met.b.len()),
                    moment(two.a, unit, axis, two.a.len()) + moment(two.b, unit, axis, two.b.len()),
                    6 * heaviest * n,
                ));
            }
            assert forall|k: int| 0 <= k < t.len() implies ((#[trigger] t[k]) matches Some(c)
                ==> all_bounded(c.particles, further)) by {
                assert(s[k] is Some ==> all_bounded(s[k]->0.particles, further));
            }
        } else {
            lemma_nothing_met(s, unit, 6 * heaviest * n);
        }
    } else {
        lemma_nothing_met(s, unit, 6 * heaviest * n);
    }
}

proof fn lemma_nothing_met(s: Seq<Option<SoftState<Fixed>>>, unit: int, drift: int)
    requires
        0 <= drift,
    ensures
        same_bodies(s, s),
        forall|axis: int|
            fixed::near(
                #[trigger] set_moment(s, unit, axis, s.len()),
                set_moment(s, unit, axis, s.len()),
                drift,
            ),
{
}

proof fn lemma_roomier(s: Seq<Option<SoftState<Fixed>>>, room: int, further: int)
    requires
        set_bounded(s, room),
        room <= further,
    ensures
        set_bounded(s, further),
{
    assert forall|k: int| 0 <= k < s.len() implies ((#[trigger] s[k]) matches Some(b)
        ==> all_bounded(b.particles, further)) by {
        if let Some(b) = s[k] {
            assert(all_bounded(b.particles, room));
            assert forall|i: int| 0 <= i < b.particles.len() implies rounding::bounded(
                (#[trigger] b.particles[i]).pos,
                further,
            ) by {
                assert(rounding::bounded(b.particles[i].pos, room));
            }
        }
    }
}

/// Whether the settings of a body for what acts between bodies are not negative and reach at most
/// `reach` far.
pub open spec fn settings_within(b: SoftState<Fixed>, reach: int) -> bool {
    &&& b.cross_collision matches Some(c) ==> 0 <= 2 * c.radius.raw <= reach && c.stiffness.raw
        >= 0
    &&& b.cohesion matches Some(c) ==> 0 <= c.radius.raw <= reach && c.stiffness.raw >= 0
}

proof fn lemma_compliance_not_negative(stiffness: Fixed, dt: Fixed)
    requires
        stiffness.raw >= 0,
    ensures
        stiffness.div(dt.mul(dt)).raw >= 0,
{
    assert(dt.mul(dt).raw >= 0);
}

/// Settings that are not negative make rules under which bodies keep their centre.
pub proof fn lemma_settings_make_rules(
    kind: Meeting,
    s: Seq<Option<SoftState<Fixed>>>,
    dt: Fixed,
    reach: int,
)
    requires
        forall|k: int|
            0 <= k < s.len() ==> ((#[trigger] s[k]) matches Some(b) ==> settings_within(b, reach)),
        0 <= reach <= span(),
    ensures
        rules_within(kind, s, dt, reach),
{
    assert forall|i: int, j: int|
        #![trigger s[i], s[j]]
        0 <= i < j < s.len() && s[i] is Some && s[j] is Some && kind.rule(
            s[i]->0,
            s[j]->0,
            dt,
        ) is Some implies rule_within(kind.rule(s[i]->0, s[j]->0, dt)->0, reach) by {
        let a = s[i]->0;
        let b = s[j]->0;
        assert(settings_within(a, reach) && settings_within(b, reach));
        match kind {
            Meeting::Collision => {
                let (ca, cb) = (a.cross_collision->0, b.cross_collision->0);
                rounding::lemma_twice(ca.radius.min(cb.radius));
                lemma_compliance_not_negative(ca.stiffness.min(cb.stiffness), dt);
            },
            Meeting::Cohesion => {
                let (ca, cb) = (a.cohesion->0, b.cohesion->0);
                lemma_compliance_not_negative(ca.stiffness.min(cb.stiffness), dt);
            },
        }
    }
}

/// What is known of a set before bodies meet in it.
spec fn ready(
    kind: Meeting,
    s: Seq<Option<SoftState<Fixed>>>,
    dt: Fixed,
    reach: int,
    unit: int,
    heaviest: int,
) -> bool {
    &&& unit > 0
    &&& 0 <= reach
    &&& 0 <= heaviest
    &&& set_masses_within(s, unit, heaviest)
    &&& rules_within(kind, s, dt, reach)
}

proof fn lemma_parts_add_up(x: int, m: nat, n: nat)
    requires
        0 <= x,
    ensures
        x * (m + n) == x * m + x * n,
        0 <= x * m,
        0 <= x * n,
{
    assert(x * (m + n) == x * m + x * n) by (nonlinear_arith);
    assert(0 <= x * m) by (nonlinear_arith)
        requires
            0 <= x,
    ;
    assert(0 <= x * n) by (nonlinear_arith)
        requires
            0 <= x,
    ;
}

proof fn lemma_row_settles(
    kind: Meeting,
    s: Seq<Option<SoftState<Fixed>>>,
    i: nat,
    dt: Fixed,
    n: nat,
    reach: int,
    unit: int,
    heaviest: int,
    room: int,
)
    requires
        i < s.len(),
        n <= s.len(),
        ready(kind, s, dt, reach, unit, heaviest),
        set_bounded(s, room),
        room + 2 * reach * meetings_in_row(kind, s, i, dt, n) <= span(),
    ensures
        kept(
            s,
            kind.row(s, i, dt, n),
            unit,
            room + 2 * reach * meetings_in_row(kind, s, i, dt, n),
            6 * heaviest * meetings_in_row(kind, s, i, dt, n),
        ),
    decreases n,
{
    if n <= i + 1 {
        lemma_nothing_met(s, unit, 0);
        assert(2 * reach * 0 == 0 && 6 * heaviest * 0 == 0) by (nonlinear_arith);
    } else {
        let m = (n - 1) as nat;
        let p = kind.row(s, i, dt, m);
        let before = meetings_in_row(kind, s, i, dt, m);
        let more = meetings_at(kind, p, i as int, n - 1, dt);
        lemma_parts_add_up(2 * reach, before, more);
        lemma_parts_add_up(6 * heaviest, before, more);
        lemma_row_settles(kind, s, i, dt, m, reach, unit, heaviest, room);
        lemma_conditions_kept(kind, s, p, dt, reach, unit, heaviest);
        let far = room + 2 * reach * before;
        lemma_meeting_settles(kind, p, i as int, n - 1, dt, reach, unit, heaviest, far);
        lemma_kept_twice(
            s,
            p,
            kind.row(s, i, dt, n),
            unit,
            far,
            far + 2 * reach * more,
            6 * heaviest * before,
            6 * heaviest * more,
        );
    }
}

proof fn lemma_pass_settles(
    kind: Meeting,
    s: Seq<Option<SoftState<Fixed>>>,
    dt: Fixed,
    n: nat,
    reach: int,
    unit: int,
    heaviest: int,
    room: int,
)
    requires
        n <= s.len(),
        ready(kind, s, dt, reach, unit, heaviest),
        set_bounded(s, room),
        room + 2 * reach * meetings_in_pass(kind, s, dt, n) <= span(),
    ensures
        kept(
            s,
            kind.pass(s, dt, n),
            unit,
            room + 2 * reach * meetings_in_pass(kind, s, dt, n),
            6 * heaviest * meetings_in_pass(kind, s, dt, n),
        ),
    decreases n,
{
    if n == 0 {
        lemma_nothing_met(s, unit, 0);
        assert(2 * reach * 0 == 0 && 6 * heaviest * 0 == 0) by (nonlinear_arith);
    } else {
        let m = (n - 1) as nat;
        let p = kind.pass(s, dt, m);
        let before = meetings_in_pass(kind, s, dt, m);
        let more = meetings_in_row(kind, p, m, dt, s.len());
        lemma_parts_add_up(2 * reach, before, more);
        lemma_parts_add_up(6 * heaviest, before, more);
        lemma_pass_settles(kind, s, dt, m, reach, unit, heaviest, room);
        lemma_conditions_kept(kind, s, p, dt, reach, unit, heaviest);
        let far = room + 2 * reach * before;
        lemma_row_settles(kind, p, m, dt, s.len(), reach, unit, heaviest, far);
        lemma_kept_twice(
            s,
            p,
            kind.pass(s, dt, n),
            unit,
            far,
            far + 2 * reach * more,
            6 * heaviest * before,
            6 * heaviest * more,
        );
    }
}

/// Collisions and cohesion between bodies keep the common centre of mass of all particles that can
/// move, up to rounding: over all bodies, mass times coordinate adds up to the same, up to six
/// steps times the largest mass for every pair of particles that is projected. Masses are counted
/// in parts of which `unit` make up the reciprocal of a step, and no coordinate may get out of
/// range.
pub proof fn lemma_bodies_keep_centre(
    kind: Meeting,
    s: Seq<Option<SoftState<Fixed>>>,
    dt: Fixed,
    k: nat,
    reach: int,
    unit: int,
    heaviest: int,
    room: int,
)
    requires
        unit > 0,
        0 <= heaviest,
        set_masses_within(s, unit, heaviest),
        0 <= reach,
        rules_within(kind, s, dt, reach),
        set_bounded(s, room),
        room + 2 * reach * meetings(kind, s, dt, k) <= span(),
    ensures
        same_bodies(s, kind.passes(s, dt, k)),
        set_bounded(kind.passes(s, dt, k), room + 2 * reach * meetings(kind, s, dt, k)),
        forall|axis: int|
            fixed::near(
                #[trigger] set_moment(kind.passes(s, dt, k), unit, axis, s.len()),
                set_moment(s, unit, axis, s.len()),
                6 * heaviest * meetings(kind, s, dt, k),
            ),
    decreases k,
{
    let t = kind.passes(s, dt, k);
    assert(kept(
        s,
        t,
        unit,
        room + 2 * reach * meetings(kind, s, dt, k),
        6 * heaviest * meetings(kind, s, dt, k),
    )) by {
        if k == 0 {
            lemma_nothing_met(s, unit, 0);
            assert(2 * reach * 0 == 0 && 6 * heaviest * 0 == 0) by (nonlinear_arith);
        } else {
            let m = (k - 1) as nat;
            let p = kind.passes(s, dt, m);
            let before = meetings(kind, s, dt, m);
            let more = meetings_in_pass(kind, p, dt, s.len());
            lemma_parts_add_up(2 * reach, before, more);
            lemma_parts_add_up(6 * heaviest, before, more);
            lemma_bodies_keep_centre(kind, s, dt, m, reach, unit, heaviest, room);
            lemma_conditions_kept(kind, s, p, dt, reach, unit, heaviest);
            let far = room + 2 * reach * before;
            lemma_pass_settles(kind, p, dt, s.len(), reach, unit, heaviest, far);
            lemma_kept_twice(
                s,
                p,
                t,
                unit,
                far,
                far + 2 * reach * more,
                6 * heaviest * before,
                6 * heaviest * more,
            );
        }
    }
}

} // verus!
