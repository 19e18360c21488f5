//! Contact and cohesion between different soft bodies.
use vstd::prelude::*;
use crate::dynamics::soft_body::constraints;
use crate::dynamics::soft_body::constraints::damp_contact_velocity_split;
use crate::dynamics::soft_body::model;
use crate::dynamics::soft_body::model::{SoftBody, SoftBodyId, SoftParticle, SoftState};
use crate::dynamics::soft_body::bodies;
use crate::dynamics::soft_body::bodies::SoftBodySet;
use crate::scalar::Real;
use crate::spatial_hash;
use crate::spatial_hash::{cell_of, CellGrid, Placed};

verus! {

/// How often all pairs of bodies are projected in one call.
pub const BODY_PASSES: u32 = 3;

/// What acts between two bodies.
#[derive(Clone, Copy, Debug, PartialEq, Eq, Structural)]
pub enum Meeting {
    /// Particles that are too close are pushed apart.
    Collision,
    /// Particles that are closer than the cohesion radius are brought to that distance.
    Cohesion,
}

/// How the particles of two bodies act on each other.
#[derive(Clone, Copy, Debug)]
pub struct PairRule<R> {
    /// The distance below which particles act on each other.
    pub reach: R,
    /// The distance that they are brought to.
    pub rest: R,
    /// Compliance over the square of the time step.
    pub compliance: R,
    /// The distance from which on a bond is broken.
    pub break_distance: Option<R>,
    /// The share of the tangential velocity that a contact removes.
    pub friction: Option<R>,
}

impl<R: Real> PairRule<R> {
    pub open spec fn spec_acts_at(self, dist: R) -> bool {
        dist.lt(self.reach) && R::decimal(1, 9).lt(dist) && match self.break_distance {
            Some(b) => dist.lt(b),
            None => true,
        }
    }

    /// Whether particles at the given distance act on each other. Particles at one place do not:
    /// there is no direction between them.
    #[verifier::when_used_as_spec(spec_acts_at)]
    pub fn acts_at(self, dist: R) -> (b: bool)
        ensures
            b == self.spec_acts_at(dist),
    {
        dist.lt(self.reach) && R::decimal(1, 9).lt(dist) && match self.break_distance {
            Some(b) => dist.lt(b),
            None => true,
        }
    }
}

impl Meeting {
    /// The rule for two bodies; there is none unless both take part.
    pub open spec fn rule<R: Real>(
        self,
        a: SoftState<R>,
        b: SoftState<R>,
        dt: R,
    ) -> Option<PairRule<R>> {
        match self {
            Meeting::Collision => match (a.cross_collision, b.cross_collision) {
                (Some(ca), Some(cb)) => {
                    let d = ca.radius.min(cb.radius).mul(R::decimal(2, 0));
                    Some(
                        PairRule {
                            reach: d,
                            rest: d,
                            compliance: ca.stiffness.min(cb.stiffness).div(dt.mul(dt)),
                            break_distance: None,
                            friction: match (ca.friction, cb.friction) {
                                (Some(x), Some(y)) => Some(x.min(y)),
                                _ => None,
                            },
                        },
                    )
                },
                _ => None,
            },
            Meeting::Cohesion => match (a.cohesion, b.cohesion) {
                (Some(ca), Some(cb)) => {
                    let radius = ca.radius.min(cb.radius);
                    Some(
                        PairRule {
                            reach: radius,
                            rest: radius,
                            compliance: ca.stiffness.min(cb.stiffness).div(dt.mul(dt)),
                            break_distance: Some(ca.break_distance.min(cb.break_distance)),
                            friction: None,
                        },
                    )
                },
                _ => None,
            },
        }
    }

    fn rule_for<R: Real>(self, a: &SoftBody<R>, b: &SoftBody<R>, dt: R) -> (r: Option<
        PairRule<R>,
    >)
        ensures
            r == self.rule(a@, b@, dt),
    {
        match self {
            Meeting::Collision => match (a.cross_collision, b.cross_collision) {
                (Some(ca), Some(cb)) => {
                    let d = ca.radius.min(cb.radius).mul(R::decimal(2, 0));
                    Some(
                        PairRule {
                            reach: d,
                            rest: d,
                            compliance: ca.stiffness.min(cb.stiffness).div(dt.mul(dt)),
                            break_distance: None,
                            friction: match (ca.friction, cb.friction) {
                                (Some(x), Some(y)) => Some(x.min(y)),
                                _ => None,
                            },
                        },
                    )
                },
                _ => None,
            },
            Meeting::Cohesion => match (a.cohesion, b.cohesion) {
                (Some(ca), Some(cb)) => {
                    let radius = ca.radius.min(cb.radius);
                    Some(
                        PairRule {
                            reach: radius,
                            rest: radius,
                            compliance: ca.stiffness.min(cb.stiffness).div(dt.mul(dt)),
                            break_distance: Some(ca.break_distance.min(cb.break_distance)),
                            friction: None,
                        },
                    )
                },
                _ => None,
            },
        }
    }
}

/// The movable ones among the first `n` particles, each in its cell.
pub open spec fn movable_cells<R: Real>(ps: Seq<SoftParticle<R>>, size: R, n: nat) -> Seq<Placed>
    decreases n,
{
    if n == 0 {
        Seq::empty()
    } else {
        let before = movable_cells(ps, size, (n - 1) as nat);
        if ps[n - 1].is_pinned() {
            before
        } else {
            before.push(Placed { cell: cell_of(ps[n - 1].pos, size), item: (n - 1) as usize })
        }
    }
}

/// Those of the first `n` candidates `js` that particle `i` of the first body acts on.
pub open spec fn found_by<R: Real>(
    a: Seq<SoftParticle<R>>,
    b: Seq<SoftParticle<R>>,
    i: int,
    js: Seq<usize>,
    rule: PairRule<R>,
    n: nat,
) -> Seq<(usize, usize)>
    decreases n,
{
    if n == 0 {
        Seq::empty()
    } else {
        let before = found_by(a, b, i, js, rule, (n - 1) as nat);
        let j = js[n - 1];
        if rule.acts_at(a[i].pos.sub(b[j as int].pos).length()) {
            before.push((i as usize, j))
        } else {
            before
        }
    }
}

/// The pairs that the first `n` particles of the first body are part of: movable particles of
/// both bodies that act on each other, found by looking around each particle's cell.
pub open spec fn found<R: Real>(
    a: Seq<SoftParticle<R>>,
    b: Seq<SoftParticle<R>>,
    rule: PairRule<R>,
    n: nat,
) -> Seq<(usize, usize)>
    decreases n,
{
    if n == 0 {
        Seq::empty()
    } else {
        let before = found(a, b, rule, (n - 1) as nat);
        if a[n - 1].is_pinned() {
            before
        } else {
            let js = spatial_hash::around(
                movable_cells(b, rule.reach, b.len()),
                cell_of(a[n - 1].pos, rule.reach),
            );
            before + found_by(a, b, n - 1, js, rule, js.len())
        }
    }
}

/// The particles of two bodies.
#[verifier::ext_equal]
pub ghost struct Two<R> {
    /// The first body's.
    pub a: Seq<SoftParticle<R>>,
    /// The second body's.
    pub b: Seq<SoftParticle<R>>,
}

/// Two particles brought to the rest distance, by their weights, with friction between them.
pub open spec fn pair_met<R: Real>(s: Two<R>, i: int, j: int, rule: PairRule<R>) -> Two<R> {
    let wa = s.a[i].inv_mass;
    let wb = s.b[j].inv_mass;
    let delta = s.a[i].pos.sub(s.b[j].pos);
    let dist = delta.length();
    let w_sum = wa.add(wb);
    if rule.acts_at(dist) && R::zero().lt(w_sum) {
        let n = delta.div(dist);
        let d = dist.sub(rule.rest).neg().sub(rule.compliance.mul(R::zero())).div(
            w_sum.add(rule.compliance),
        );
        let a = if wa.equals(R::zero()) {
            s.a
        } else {
            model::moved(s.a, i, n.scale(wa.mul(d)))
        };
        let b = if wb.equals(R::zero()) {
            s.b
        } else {
            model::moved_back(s.b, j, n.scale(wb.mul(d)))
        };
        match rule.friction {
            Some(mu) => match constraints::slip(a[i], b[j], mu) {
                Some(corr) => Two {
                    a: a.update(i, constraints::slowed(a[i], b[j], corr)),
                    b: b.update(j, constraints::dragged(a[i], b[j], corr)),
                },
                None => Two { a, b },
            },
            None => Two { a, b },
        }
    } else {
        s
    }
}

/// The first `n` pairs, one after the other.
pub open spec fn pairs_met<R: Real>(
    s: Two<R>,
    pairs: Seq<(usize, usize)>,
    rule: PairRule<R>,
    n: nat,
) -> Two<R>
    decreases n,
{
    if n == 0 {
        s
    } else {
        pair_met(
            pairs_met(s, pairs, rule, (n - 1) as nat),
            pairs[n - 1].0 as int,
            pairs[n - 1].1 as int,
            rule,
        )
    }
}

/// Two bodies after their particles acted on each other.
pub open spec fn bodies_met<R: Real>(
    a: Seq<SoftParticle<R>>,
    b: Seq<SoftParticle<R>>,
    rule: PairRule<R>,
) -> Two<R> {
    let pairs = found(a, b, rule, a.len());
    pairs_met(Two { a, b }, pairs, rule, pairs.len())
}

impl Meeting {
    /// Two places of the set after the bodies there met.
    pub open spec fn places<R: Real>(
        self,
        s: Seq<Option<SoftState<R>>>,
        i: int,
        j: int,
        dt: R,
    ) -> Seq<Option<SoftState<R>>> {
        match (s[i], s[j]) {
            (Some(a), Some(b)) => match self.rule(a, b, dt) {
                Some(rule) => {
                    let two = bodies_met(a.particles, b.particles, rule);
                    s.update(i, Some(SoftState { particles: two.a, ..a })).update(
                        j,
                        Some(SoftState { particles: two.b, ..b }),
                    )
                },
                None => s,
            },
            _ => s,
        }
    }

    /// Body `i` against those after it among the first `n`.
    pub open spec fn row<R: Real>(
        self,
        s: Seq<Option<SoftState<R>>>,
        i: nat,
        dt: R,
        n: nat,
    ) -> Seq<Option<SoftState<R>>>
        decreases n,
    {
        if n <= i + 1 {
            s
        } else {
            self.places(self.row(s, i, dt, (n - 1) as nat), i as int, n - 1, dt)
        }
    }

    /// The first `n` bodies against all after them.
    pub open spec fn pass<R: Real>(
        self,
        s: Seq<Option<SoftState<R>>>,
        dt: R,
        n: nat,
    ) -> Seq<Option<SoftState<R>>>
        decreases n,
    {
        if n == 0 {
            s
        } else {
            self.row(self.pass(s, dt, (n - 1) as nat), (n - 1) as nat, dt, s.len())
        }
    }

    /// All pairs of bodies, `k` times over.
    pub open spec fn passes<R: Real>(
        self,
        s: Seq<Option<SoftState<R>>>,
        dt: R,
        k: nat,
    ) -> Seq<Option<SoftState<R>>>
        decreases k,
    {
        if k == 0 {
            s
        } else {
            self.pass(self.passes(s, dt, (k - 1) as nat), dt, s.len())
        }
    }
}

/// Every pair is of one of `m` and one of `n` particles.
pub open spec fn pairs_valid(pairs: Seq<(usize, usize)>, m: nat, n: nat) -> bool {
    forall|k: int|
        0 <= k < pairs.len() ==> (#[trigger] pairs[k]).0 < m && pairs[k].1 < n
}

fn movable_grid<R: Real>(ps: &Vec<SoftParticle<R>>, size: R) -> (grid: CellGrid)
    ensures
        grid.wf(),
        grid@ == movable_cells(ps@, size, ps@.len()),
        spatial_hash::items_below(grid@, ps@.len()),
{
    let mut grid = CellGrid::new();
    let n: usize = ps.len();
    for i in 0..n
        invariant
            n == ps@.len(),
            grid.wf(),
            grid@ == movable_cells(ps@, size, i as nat),
            spatial_hash::items_below(grid@, n as nat),
    {
        let p = ps[i];
        if !p.is_pinned() {
            grid.place(cell_of(p.pos, size), i);
        }
    }
    grid
}

fn find_by<R: Real>(
    a: &Vec<SoftParticle<R>>,
    b: &Vec<SoftParticle<R>>,
    i: usize,
    js: &Vec<usize>,
    rule: PairRule<R>,
) -> (pairs: Vec<(usize, usize)>)
    requires
        i < a@.len(),
        forall|k: int| 0 <= k < js@.len() ==> (#[trigger] js@[k]) < b@.len(),
    ensures
        pairs@ == found_by(a@, b@, i as int, js@, rule, js@.len()),
        pairs_valid(pairs@, a@.len(), b@.len()),
{
    let mut pairs: Vec<(usize, usize)> = Vec::new();
    let n: usize = js.len();
    for k in 0..n
        invariant
            n == js@.len(),
            i < a@.len(),
            forall|k: int| 0 <= k < js@.len() ==> (#[trigger] js@[k]) < b@.len(),
            pairs@ == found_by(a@, b@, i as int, js@, rule, k as nat),
            pairs_valid(pairs@, a@.len(), b@.len()),
    {
        let j: usize = js[k];
        assert(js@[k as int] < b@.len());
        if rule.acts_at(a[i].pos.sub(b[j].pos).length()) {
            pairs.push((i, j));
        }
    }
    pairs
}

fn find<R: Real>(
    a: &Vec<SoftParticle<R>>,
    b: &Vec<SoftParticle<R>>,
    rule: PairRule<R>,
) -> (pairs: Vec<(usize, usize)>)
    ensures
        pairs@ == found(a@, b@, rule, a@.len()),
        pairs_valid(pairs@, a@.len(), b@.len()),
{
    let mut pairs: Vec<(usize, usize)> = Vec::new();
    let grid = movable_grid(b, rule.reach);
    let n: usize = a.len();
    for i in 0..n
        invariant
            n == a@.len(),
            grid.wf(),
            grid@ == movable_cells(b@, rule.reach, b@.len()),
            spatial_hash::items_below(grid@, b@.len()),
            pairs@ == found(a@, b@, rule, i as nat),
            pairs_valid(pairs@, a@.len(), b@.len()),
    {
        if !a[i].is_pinned() {
            let cell = cell_of(a[i].pos, rule.reach);
            let js = grid.items_around(cell);
            proof {
                spatial_hash::lemma_around_below(grid@, cell, b@.len());
            }
            let mut more = find_by(a, b, i, &js, rule);
            let ghost before = pairs@;
            let ghost added = more@;
            pairs.append(&mut more);
            assert forall|k: int| 0 <= k < pairs@.len() implies (#[trigger] pairs@[k]).0 < a@.len()
                && pairs@[k].1 < b@.len() by {
                if k < before.len() {
                    assert(pairs@[k] == before[k]);
                } else {
                    assert(pairs@[k] == added[k - before.len()]);
                }
            }
        }
    }
    pairs
}

fn meet_pair<R: Real>(
    a: &mut Vec<SoftParticle<R>>,
    b: &mut Vec<SoftParticle<R>>,
    i: usize,
    j: usize,
    rule: PairRule<R>,
)
    requires
        i < old(a)@.len(),
        j < old(b)@.len(),
    ensures
        (Two { a: final(a)@, b: final(b)@ }) == pair_met(
            Two { a: old(a)@, b: old(b)@ },
            i as int,
            j as int,
            rule,
        ),
        final(a)@.len() == old(a)@.len(),
        final(b)@.len() == old(b)@.len(),
{
    let wa = a[i].inv_mass;
    let wb = b[j].inv_mass;
    let delta = a[i].pos.sub(b[j].pos);
    let dist = delta.length();
    let w_sum = wa.add(wb);
    if rule.acts_at(dist) && R::zero().lt(w_sum) {
        let n = delta.div(dist);
        let d = dist.sub(rule.rest).neg().sub(rule.compliance.mul(R::zero())).div(
            w_sum.add(rule.compliance),
        );
        if !wa.equals(R::zero()) {
            a[i].pos = a[i].pos.add(n.scale(wa.mul(d)));
        }
        if !wb.equals(R::zero()) {
            b[j].pos = b[j].pos.sub(n.scale(wb.mul(d)));
        }
        if let Some(mu) = rule.friction {
            damp_contact_velocity_split(a, b, i, j, mu);
        }
    }
}

fn meet<R: Real>(a: &mut SoftBody<R>, b: &mut SoftBody<R>, rule: PairRule<R>)
    ensures
        final(a)@ == (SoftState {
            particles: bodies_met(old(a)@.particles, old(b)@.particles, rule).a,
            ..old(a)@
        }),
        final(b)@ == (SoftState {
            particles: bodies_met(old(a)@.particles, old(b)@.particles, rule).b,
            ..old(b)@
        }),
        final(a)@.particles.len() == old(a)@.particles.len(),
        final(b)@.particles.len() == old(b)@.particles.len(),
{
    let ghost start = Two { a: a@.particles, b: b@.particles };
    let ghost a0 = a@;
    let ghost b0 = b@;
    let pairs = find(&a.particles, &b.particles, rule);
    let n: usize = pairs.len();
    for k in 0..n
        invariant
            n == pairs@.len(),
            a@ == (SoftState { particles: a.particles@, ..a0 }),
            b@ == (SoftState { particles: b.particles@, ..b0 }),
            a.particles@.len() == start.a.len(),
            b.particles@.len() == start.b.len(),
            pairs_valid(pairs@, start.a.len(), start.b.len()),
            (Two { a: a.particles@, b: b.particles@ }) == pairs_met(
                start,
                pairs@,
                rule,
                k as nat,
            ),
    {
        let (i, j) = pairs[k];
        assert(pairs@[k as int].0 < start.a.len());
        meet_pair(&mut a.particles, &mut b.particles, i, j, rule);
    }
}

/// Meeting keeps every body consistent.
proof fn lemma_places_wf<R: Real>(
    s: Seq<Option<SoftState<R>>>,
    t: Seq<Option<SoftState<R>>>,
    i: int,
    j: int,
    a: SoftState<R>,
    b: SoftState<R>,
)
    requires
        bodies::all_wf(s),
        0 <= i < s.len(),
        0 <= j < s.len(),
        s[i] is Some,
        s[j] is Some,
        a == (SoftState { particles: a.particles, ..s[i]->0 }),
        b == (SoftState { particles: b.particles, ..s[j]->0 }),
        a.particles.len() == s[i]->0.particles.len(),
        b.particles.len() == s[j]->0.particles.len(),
        t == s.update(i, Some(a)).update(j, Some(b)),
    ensures
        bodies::all_wf(t),
{
    assert(s[i]->0.wf());
    assert(s[j]->0.wf());
}

fn meet_places<R: Real>(set: &mut SoftBodySet<R>, kind: Meeting, i: usize, j: usize, dt: R)
    requires
        i < j < old(set)@.len(),
        old(set)@.len() <= u32::MAX + 1,
    ensures
        final(set)@ == kind.places(old(set)@, i as int, j as int, dt),
        final(set)@.len() == old(set)@.len(),
        bodies::all_wf(old(set)@) ==> bodies::all_wf(final(set)@),
{
    let ghost before = set@;
    let (x, y) = set.get2_mut(SoftBodyId(i as u32), SoftBodyId(j as u32));
    if let (Some(a), Some(b)) = (x, y) {
        if let Some(rule) = kind.rule_for(a, b, dt) {
            meet(a, b, rule);
        }
    }
    proof {
        if bodies::all_wf(before) && before[i as int] is Some && before[j as int] is Some {
            lemma_places_wf(
                before,
                set@,
                i as int,
                j as int,
                set@[i as int]->0,
                set@[j as int]->0,
            );
        }
    }
}

fn meet_all<R: Real>(set: &mut SoftBodySet<R>, kind: Meeting, dt: R)
    requires
        old(set)@.len() <= u32::MAX + 1,
    ensures
        final(set)@ == kind.passes(old(set)@, dt, BODY_PASSES as nat),
        bodies::all_wf(old(set)@) ==> bodies::all_wf(final(set)@),
{
    let n: usize = set.len();
    let ghost start = set@;
    for k in 0..BODY_PASSES
        invariant
            n == set@.len(),
            n == start.len(),
            n <= u32::MAX + 1,
            set@ == kind.passes(start, dt, k as nat),
            bodies::all_wf(start) ==> bodies::all_wf(set@),
    {
        let ghost before = set@;
        for i in 0..n
            invariant
                n == set@.len(),
                n == before.len(),
                n <= u32::MAX + 1,
                set@ == kind.pass(before, dt, i as nat),
                bodies::all_wf(start) ==> bodies::all_wf(set@),
        {
            let ghost first = set@;
            for j in i + 1..n
                invariant
                    n == set@.len(),
                    n == first.len(),
                    n <= u32::MAX + 1,
                    i < n,
                    set@ == kind.row(first, i as nat, dt, j as nat),
                    bodies::all_wf(start) ==> bodies::all_wf(set@),
            {
                meet_places(set, kind, i, j, dt);
            }
        }
    }
}

/// Pushes the particles of different bodies apart that have collisions with others set.
///
/// For every pair of bodies, in ascending order of their ids, movable particles that are closer
/// than twice the smaller radius are pushed apart, with the smaller compliance and, if both have
/// one, the smaller friction. All pairs are gone through a few times.
pub fn solve_cross_body_collisions<R: Real>(set: &mut SoftBodySet<R>, dt: R)
    requires
        old(set)@.len() <= u32::MAX + 1,
    ensures
        final(set)@ == Meeting::Collision.passes(old(set)@, dt, BODY_PASSES as nat),
        bodies::all_wf(old(set)@) ==> bodies::all_wf(final(set)@),
{
    meet_all(set, Meeting::Collision, dt);
}

/// Brings the particles of different bodies to the cohesion radius that have cohesion set.
///
/// For every pair of bodies, in ascending order of their ids, movable particles within the
/// smaller radius, and within the smaller break distance, are brought to that radius, with the
/// smaller compliance. All pairs are gone through a few times.
pub fn solve_cohesion<R: Real>(set: &mut SoftBodySet<R>, dt: R)
    requires
        old(set)@.len() <= u32::MAX + 1,
    ensures
        final(set)@ == Meeting::Cohesion.passes(old(set)@, dt, BODY_PASSES as nat),
        bodies::all_wf(old(set)@) ==> bodies::all_wf(final(set)@),
{
    meet_all(set, Meeting::Cohesion, dt);
}

} // verus!
