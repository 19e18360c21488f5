//! Continuous collision detection: keeping fast bodies from passing through others.
//!
//! Bodies that are fast are swept along their motion, and their pose at the end of the step is
//! taken back to the earliest impact. Velocities stay as they are. The sweeps themselves are done
//! by the caller; what to sweep, what to make of the results and which events to report is
//! decided here.
use vstd::prelude::*;
use crate::dynamics::rigid_body;
use crate::dynamics::rigid_body::{
    BodyModel, RigidBodyCcd, RigidBodyHandle, RigidBodySet, SlotModel,
};
use crate::geometry::aabb::Aabb;
use crate::math::{Pose, Rotation, Vector};
use crate::reals;
use crate::reals::{arrow, turn, unrounded, Arrow, Turn};
use crate::scalar::Real;

verus! {

/// The name of a collider.
#[derive(Clone, Copy, Debug, PartialEq, Eq, Hash, Structural)]
pub struct ColliderHandle {
    /// Position in the set of colliders.
    pub index: u32,
    /// How many colliders held that position before.
    pub generation: u32,
}

/// The motion of a body between two poses: its centre of mass moves straight, its rotation is
/// interpolated.
#[derive(Clone, Copy, Debug)]
pub struct Sweep<R> {
    /// Centre of mass in the local frame.
    pub local_center: Vector<R>,
    /// Centre of mass at the start.
    pub c1: Vector<R>,
    /// Centre of mass at the end.
    pub c2: Vector<R>,
    /// Rotation at the start.
    pub q1: Rotation<R>,
    /// Rotation at the end.
    pub q2: Rotation<R>,
}

impl<R: Real> Sweep<R> {
    pub open spec fn spec_from_poses(
        start: Pose<R>,
        end: Pose<R>,
        local_center: Vector<R>,
    ) -> Sweep<R> {
        Sweep {
            local_center,
            c1: start.transform_point(local_center),
            c2: end.transform_point(local_center),
            q1: start.rotation,
            q2: end.rotation,
        }
    }

    /// The motion between two poses.
    #[verifier::when_used_as_spec(spec_from_poses)]
    pub fn from_poses(start: Pose<R>, end: Pose<R>, local_center: Vector<R>) -> (s: Sweep<R>)
        ensures
            s == Self::spec_from_poses(start, end, local_center),
    {
        Sweep {
            local_center,
            c1: start.transform_point(local_center),
            c2: end.transform_point(local_center),
            q1: start.rotation,
            q2: end.rotation,
        }
    }

    pub open spec fn spec_transform_at(self, t: R) -> Pose<R> {
        let q = self.q1.nlerp(self.q2, t);
        Pose {
            rotation: q,
            translation: self.c1.lerp(self.c2, t).sub(q.rotate(self.local_center)),
        }
    }

    /// The pose at the fraction `t` of the motion.
    #[verifier::when_used_as_spec(spec_transform_at)]
    pub fn transform_at(self, t: R) -> (p: Pose<R>)
        ensures
            p == self.spec_transform_at(t),
    {
        let q = self.q1.nlerp(self.q2, t);
        Pose {
            rotation: q,
            translation: self.c1.lerp(self.c2, t).sub(q.rotate(self.local_center)),
        }
    }
}

/// A collider that a sweep passed through without being stopped.
#[derive(Clone, Copy, Debug)]
pub struct PseudoHit<R> {
    /// The collider that was swept.
    pub ch1: ColliderHandle,
    /// The collider that it passed through.
    pub ch2: ColliderHandle,
    /// At which fraction of the motion.
    pub fraction: R,
}

/// What the sweep of one body found.
#[derive(Clone, Debug)]
pub struct BodyContinuousResult<R> {
    /// The body.
    pub handle: RigidBodyHandle,
    /// The fraction of its motion at the first solid impact; one if there is none.
    pub fraction: R,
    /// Point and normal of that impact.
    pub toi: Option<(Vector<R>, Vector<R>)>,
    /// What the body passed through.
    pub pseudo_hits: Vec<PseudoHit<R>>,
}

/// What the sweep of one body found.
#[verifier::ext_equal]
pub ghost struct Found<R> {
    /// The body.
    pub handle: RigidBodyHandle,
    /// The fraction of its motion at the first solid impact.
    pub fraction: R,
    /// Point and normal of that impact.
    pub toi: Option<(Vector<R>, Vector<R>)>,
    /// What the body passed through.
    pub pseudo_hits: Seq<PseudoHit<R>>,
}

impl<R> View for BodyContinuousResult<R> {
    type V = Found<R>;

    open spec fn view(&self) -> Found<R> {
        Found {
            handle: self.handle,
            fraction: self.fraction,
            toi: self.toi,
            pseudo_hits: self.pseudo_hits@,
        }
    }
}

/// What is known of a collider pair that a body passed through.
#[derive(Clone, Copy, Debug, PartialEq, Eq, Structural)]
pub struct SensorProbe {
    /// Whether one of the two only reports what it touches.
    pub sensor: bool,
    /// Whether one of the two asks for collision events.
    pub wants_events: bool,
    /// Whether the two overlap at the start of the step.
    pub intersect_before: bool,
    /// Whether the two overlap at the end of the step.
    pub intersect_after: bool,
}

/// What kind of event is reported.
#[derive(Clone, Copy, Debug, PartialEq, Eq, Structural)]
pub struct CollisionEventFlags {
    /// Whether one of the two only reports what it touches.
    pub sensor: bool,
    /// Whether one of the two was removed.
    pub removed: bool,
}

impl CollisionEventFlags {
    pub open spec fn spec_passed_sensor() -> CollisionEventFlags {
        CollisionEventFlags { sensor: true, removed: false }
    }

    /// A sensor was passed through.
    #[verifier::when_used_as_spec(spec_passed_sensor)]
    pub fn passed_sensor() -> (f: CollisionEventFlags)
        ensures
            f == Self::spec_passed_sensor(),
    {
        CollisionEventFlags { sensor: true, removed: false }
    }
}

/// A report that a sensor was entered or left.
#[derive(Clone, Copy, Debug, PartialEq, Eq, Structural)]
pub enum CollisionEvent {
    /// The two began to overlap.
    Started(ColliderHandle, ColliderHandle, CollisionEventFlags),
    /// The two ceased to overlap.
    Stopped(ColliderHandle, ColliderHandle, CollisionEventFlags),
}

/// Fixed colliders with their bounds.
pub type FixedTargets<R> = Vec<(ColliderHandle, Aabb<R>)>;

/// What the pass over the fast bodies needs next.
#[derive(Clone, Debug)]
pub enum ContinuousTask<R> {
    /// Nothing yet.
    Start {
        /// The bodies that are awake.
        active: Vec<RigidBodyHandle>,
        /// How much the bounds of colliders are loosened.
        prediction: R,
        /// Whether bodies or colliders were added, removed or changed since the last step.
        scene_changed: bool,
    },
    /// The fixed colliders have to be listed again.
    CollectTargets {
        /// Fast bodies that meet fixed colliders only.
        non_bullets: Vec<RigidBodyHandle>,
        /// Fast bodies that meet everything.
        bullets: Vec<RigidBodyHandle>,
        /// How much the bounds of colliders are loosened.
        prediction: R,
    },
    /// The first bodies have to be swept against the fixed colliders.
    SweepFixed {
        /// The bodies to sweep.
        non_bullets: Vec<RigidBodyHandle>,
        /// Those that come after.
        bullets: Vec<RigidBodyHandle>,
    },
    /// The bullets have to be swept against everything.
    SweepBullets {
        /// The bodies to sweep.
        bullets: Vec<RigidBodyHandle>,
        /// What the first bodies passed through before they were stopped.
        hits: Vec<PseudoHit<R>>,
    },
    /// The pairs that bodies passed through have to be looked at.
    Probe {
        /// The pairs.
        hits: Vec<PseudoHit<R>>,
    },
    /// Nothing more.
    Finished {
        /// The events to report, in their order.
        events: Vec<CollisionEvent>,
    },
}

/// What the caller found.
#[derive(Clone, Debug)]
pub enum ContinuousReply<R> {
    /// Nothing was asked.
    Nothing,
    /// The fixed colliders; none if they are too many to list.
    Targets(Option<FixedTargets<R>>),
    /// The results of the sweeps.
    Results(Vec<BodyContinuousResult<R>>),
    /// What is known of the pairs, in their order.
    Probes(Vec<SensorProbe>),
}

/// What the pass over the fast bodies needs next.
pub ghost enum Task<R> {
    /// Nothing yet.
    Start { active: Seq<RigidBodyHandle>, prediction: R, scene_changed: bool },
    /// The fixed colliders have to be listed again.
    CollectTargets {
        non_bullets: Seq<RigidBodyHandle>,
        bullets: Seq<RigidBodyHandle>,
        prediction: R,
    },
    /// The first bodies have to be swept against the fixed colliders.
    SweepFixed { non_bullets: Seq<RigidBodyHandle>, bullets: Seq<RigidBodyHandle> },
    /// The bullets have to be swept against everything.
    SweepBullets { bullets: Seq<RigidBodyHandle>, hits: Seq<PseudoHit<R>> },
    /// The pairs that bodies passed through have to be looked at.
    Probe { hits: Seq<PseudoHit<R>> },
    /// Nothing more.
    Finished { events: Seq<CollisionEvent> },
}

impl<R> View for ContinuousTask<R> {
    type V = Task<R>;

    open spec fn view(&self) -> Task<R> {
        match *self {
            ContinuousTask::Start { active, prediction, scene_changed } => Task::Start {
                active: active@,
                prediction,
                scene_changed,
            },
            ContinuousTask::CollectTargets { non_bullets, bullets, prediction } =>
                Task::CollectTargets {
                non_bullets: non_bullets@,
                bullets: bullets@,
                prediction,
            },
            ContinuousTask::SweepFixed { non_bullets, bullets } => Task::SweepFixed {
                non_bullets: non_bullets@,
                bullets: bullets@,
            },
            ContinuousTask::SweepBullets { bullets, hits } => Task::SweepBullets {
                bullets: bullets@,
                hits: hits@,
            },
            ContinuousTask::Probe { hits } => Task::Probe { hits: hits@ },
            ContinuousTask::Finished { events } => Task::Finished { events: events@ },
        }
    }
}

/// What the caller found.
pub ghost enum Reply<R> {
    /// Nothing was asked.
    Nothing,
    /// The fixed colliders.
    Targets(Option<Seq<(ColliderHandle, Aabb<R>)>>),
    /// The results of the sweeps.
    Results(Seq<Found<R>>),
    /// What is known of the pairs.
    Probes(Seq<SensorProbe>),
}

impl<R> View for ContinuousReply<R> {
    type V = Reply<R>;

    open spec fn view(&self) -> Reply<R> {
        match *self {
            ContinuousReply::Nothing => Reply::Nothing,
            ContinuousReply::Targets(t) => Reply::Targets(
                match t {
                    Some(list) => Some(list@),
                    None => None,
                },
            ),
            ContinuousReply::Results(rs) => Reply::Results(
                rs@.map_values(|r: BodyContinuousResult<R>| r@),
            ),
            ContinuousReply::Probes(ps) => Reply::Probes(ps@),
        }
    }
}

/// The list of fixed colliders with the loosening that it was made for; no list if they are too
/// many.
pub type Cache<R> = Option<(R, Option<Seq<(ColliderHandle, Aabb<R>)>>)>;

/// Whether a body is there and has to be swept.
pub open spec fn is_fast<R>(slots: Seq<SlotModel<R>>, h: RigidBodyHandle) -> bool {
    rigid_body::body_at(slots, h) matches Some(rb) && rb.ccd.ccd_active
}

/// Whether a body is there, has to be swept, and meets everything.
pub open spec fn is_fast_bullet<R>(slots: Seq<SlotModel<R>>, h: RigidBodyHandle) -> bool {
    rigid_body::body_at(slots, h) matches Some(rb) && rb.ccd.ccd_active && rb.ccd.ccd_enabled
}

/// Those of the first `n` bodies that have to be swept, bullets or others.
pub open spec fn fast_ones<R>(
    slots: Seq<SlotModel<R>>,
    active: Seq<RigidBodyHandle>,
    bullets: bool,
    n: nat,
) -> Seq<RigidBodyHandle>
    decreases n,
{
    if n == 0 {
        Seq::empty()
    } else {
        let before = fast_ones(slots, active, bullets, (n - 1) as nat);
        let h = active[n - 1];
        if is_fast(slots, h) && is_fast_bullet(slots, h) == bullets {
            before.push(h)
        } else {
            before
        }
    }
}

/// A body that is stopped at a fraction of its motion.
pub open spec fn stopped<R: Real>(rb: BodyModel<R>, found: Found<R>) -> BodyModel<R> {
    BodyModel {
        next_position: Sweep::from_poses(
            rb.position,
            rb.next_position,
            rb.mprops.local_com,
        ).transform_at(found.fraction),
        ccd: RigidBodyCcd {
            impact: match found.toi {
                Some(hit) => Some(hit),
                None => rb.ccd.impact,
            },
            ..rb.ccd
        },
        ..rb
    }
}

/// The bodies with those stopped that hit something, according to the first `n` results.
pub open spec fn clamped<R: Real>(
    slots: Seq<SlotModel<R>>,
    results: Seq<Found<R>>,
    n: nat,
) -> Seq<SlotModel<R>>
    decreases n,
{
    if n == 0 {
        slots
    } else {
        let before = clamped(slots, results, (n - 1) as nat);
        let r = results[n - 1];
        if r.fraction.lt(R::one()) {
            match rigid_body::body_at(before, r.handle) {
                Some(rb) => rigid_body::with_body(before, r.handle, stopped(rb, r)),
                None => before,
            }
        } else {
            before
        }
    }
}

/// Whether there is a result for a body.
pub open spec fn answered<R>(results: Seq<Found<R>>, h: RigidBodyHandle) -> bool {
    exists|i: int| 0 <= i < results.len() && (#[trigger] results[i]).handle == h
}

/// Those of the first `n` results that answer what was asked: the first one for each body that
/// was asked for and has to be swept.
pub open spec fn answers<R>(
    slots: Seq<SlotModel<R>>,
    asked: Seq<RigidBodyHandle>,
    results: Seq<Found<R>>,
    n: nat,
) -> Seq<Found<R>>
    decreases n,
{
    if n == 0 {
        Seq::empty()
    } else {
        let before = answers(slots, asked, results, (n - 1) as nat);
        let r = results[n - 1];
        if asked.contains(r.handle) && is_fast(slots, r.handle) && !answered(before, r.handle) {
            before.push(r)
        } else {
            before
        }
    }
}

/// Those of the first `n` pairs that come before the given fraction.
pub open spec fn early<R: Real>(hits: Seq<PseudoHit<R>>, fraction: R, n: nat) -> Seq<PseudoHit<R>>
    decreases n,
{
    if n == 0 {
        Seq::empty()
    } else {
        let before = early(hits, fraction, (n - 1) as nat);
        if fraction.le(hits[n - 1].fraction) {
            before
        } else {
            before.push(hits[n - 1])
        }
    }
}

/// The pairs that the bodies of the first `n` results passed through before they were stopped.
pub open spec fn passed<R: Real>(results: Seq<Found<R>>, n: nat) -> Seq<PseudoHit<R>>
    decreases n,
{
    if n == 0 {
        Seq::empty()
    } else {
        let r = results[n - 1];
        passed(results, (n - 1) as nat) + early(r.pseudo_hits, r.fraction, r.pseudo_hits.len())
    }
}

/// Whether passing through a pair has to be reported: a sensor is part of it, somebody asked for
/// events, and the two overlap neither before nor after the step.
pub open spec fn reportable(p: SensorProbe) -> bool {
    p.sensor && p.wants_events && !p.intersect_before && !p.intersect_after
}

/// The events for the first `n` pairs: where one is to be reported, that it was entered and left.
pub open spec fn crossing_events<R>(
    hits: Seq<PseudoHit<R>>,
    probes: Seq<SensorProbe>,
    n: nat,
) -> Seq<CollisionEvent>
    decreases n,
{
    if n == 0 {
        Seq::empty()
    } else {
        let before = crossing_events(hits, probes, (n - 1) as nat);
        let h = hits[n - 1];
        if reportable(probes[n - 1]) {
            let flags = CollisionEventFlags::passed_sensor();
            before.push(CollisionEvent::Started(h.ch1, h.ch2, flags)).push(
                CollisionEvent::Stopped(h.ch1, h.ch2, flags),
            )
        } else {
            before
        }
    }
}

/// Whether the list of fixed colliders can be used again.
pub open spec fn cache_valid<R: Real>(cache: Cache<R>, prediction: R, scene_changed: bool) -> bool {
    !scene_changed && (cache matches Some(c) && c.0.equals(prediction))
}

/// The list of fixed colliders after a reply.
pub open spec fn next_cache<R: Real>(cache: Cache<R>, task: Task<R>, reply: Reply<R>) -> Cache<R> {
    match (task, reply) {
        (
            Task::CollectTargets { non_bullets, bullets, prediction },
            Reply::Targets(targets),
        ) => Some((prediction, targets)),
        _ => cache,
    }
}

/// The bodies after a reply: those that were asked for and hit something are stopped.
pub open spec fn next_bodies<R: Real>(
    slots: Seq<SlotModel<R>>,
    task: Task<R>,
    reply: Reply<R>,
) -> Seq<SlotModel<R>> {
    match (task, reply) {
        (Task::SweepFixed { non_bullets, bullets }, Reply::Results(results)) => {
            let kept = answers(slots, non_bullets, results, results.len());
            clamped(slots, kept, kept.len())
        },
        (Task::SweepBullets { bullets, hits }, Reply::Results(results)) => {
            let kept = answers(slots, bullets, results, results.len());
            clamped(slots, kept, kept.len())
        },
        _ => slots,
    }
}

/// What is needed after a reply. A reply that does not fit changes nothing, and neither do results
/// for bodies that were not asked for.
pub open spec fn next_task<R: Real>(
    cache: Cache<R>,
    slots: Seq<SlotModel<R>>,
    task: Task<R>,
    reply: Reply<R>,
) -> Task<R> {
    match task {
        Task::Start { active, prediction, scene_changed } => {
            let non_bullets = fast_ones(slots, active, false, active.len());
            let bullets = fast_ones(slots, active, true, active.len());
            if cache_valid(cache, prediction, scene_changed) {
                Task::SweepFixed { non_bullets, bullets }
            } else {
                Task::CollectTargets { non_bullets, bullets, prediction }
            }
        },
        Task::CollectTargets { non_bullets, bullets, prediction } => match reply {
            Reply::Targets(targets) => Task::SweepFixed { non_bullets, bullets },
            _ => task,
        },
        Task::SweepFixed { non_bullets, bullets } => match reply {
            Reply::Results(results) => {
                let kept = answers(slots, non_bullets, results, results.len());
                let hits = passed(kept, kept.len());
                if bullets.len() == 0 {
                    Task::Probe { hits }
                } else {
                    Task::SweepBullets { bullets, hits }
                }
            },
            _ => task,
        },
        Task::SweepBullets { bullets, hits } => match reply {
            Reply::Results(results) => {
                let kept = answers(slots, bullets, results, results.len());
                Task::Probe { hits: hits + passed(kept, kept.len()) }
            },
            _ => task,
        },
        Task::Probe { hits } => match reply {
            Reply::Probes(probes) => if probes.len() == hits.len() {
                Task::Finished { events: crossing_events(hits, probes, hits.len()) }
            } else {
                task
            },
            _ => task,
        },
        Task::Finished { events } => task,
    }
}

/// The bodies with the flag of the first `n` brought up to date: those that are moved by forces
/// are fast if the estimate says so.
pub open spec fn flags_updated<R>(
    slots: Seq<SlotModel<R>>,
    active: Seq<RigidBodyHandle>,
    include_forces: bool,
    n: nat,
) -> Seq<SlotModel<R>>
    decreases n,
{
    if n == 0 {
        slots
    } else {
        let before = flags_updated(slots, active, include_forces, (n - 1) as nat);
        let h = active[n - 1];
        match rigid_body::body_at(before, h) {
            Some(rb) => if rb.body_type == rigid_body::RigidBodyType::Dynamic {
                rigid_body::with_body(
                    before,
                    h,
                    BodyModel {
                        ccd: RigidBodyCcd { ccd_active: estimate(rb, include_forces), ..rb.ccd },
                        ..rb
                    },
                )
            } else {
                before
            },
            None => before,
        }
    }
}

/// Whether a body moves further than its thickness: by forces and velocities before the solver
/// ran, by the solved motion after.
pub open spec fn estimate<R>(rb: BodyModel<R>, include_forces: bool) -> bool {
    if include_forces {
        rb.ccd.fast_before_solve
    } else {
        rb.ccd.fast_after_solve
    }
}

/// Whether one of the first `n` bodies is moved by forces and fast.
pub open spec fn any_fast<R>(
    slots: Seq<SlotModel<R>>,
    active: Seq<RigidBodyHandle>,
    include_forces: bool,
    n: nat,
) -> bool {
    exists|i: int| 0 <= i < n && #[trigger] fast_at(slots, active[i], include_forces)
}

/// Whether a body is moved by forces and fast.
pub open spec fn fast_at<R>(
    slots: Seq<SlotModel<R>>,
    h: RigidBodyHandle,
    include_forces: bool,
) -> bool {
    rigid_body::body_at(slots, h) matches Some(rb) && rb.body_type
        == rigid_body::RigidBodyType::Dynamic && estimate(rb, include_forces)
}

/// The smallest of one and the first `n` fractions.
pub open spec fn smallest<R: Real>(fractions: Seq<R>, n: nat) -> R
    decreases n,
{
    if n == 0 {
        R::one()
    } else {
        smallest(fractions, (n - 1) as nat).min(fractions[n - 1])
    }
}

/// The time of the first impact within `dt`; none if no fraction is below one.
pub open spec fn first_impact<R: Real>(dt: R, fractions: Seq<R>) -> Option<R> {
    let least = smallest(fractions, fractions.len());
    if least.lt(R::one()) {
        Some(least.mul(dt))
    } else {
        None
    }
}

/// Updating flags changes nothing that the estimates rest on.
proof fn lemma_flags_keep_estimates<R>(
    slots: Seq<SlotModel<R>>,
    active: Seq<RigidBodyHandle>,
    include_forces: bool,
    n: nat,
    h: RigidBodyHandle,
)
    ensures
        fast_at(flags_updated(slots, active, include_forces, n), h, include_forces) == fast_at(
            slots,
            h,
            include_forces,
        ),
    decreases n,
{
    if n > 0 {
        lemma_flags_keep_estimates(slots, active, include_forces, (n - 1) as nat, h);
    }
}

/// The solver for fast bodies. It remembers the list of fixed colliders between steps.
#[derive(Clone, Debug)]
pub struct CCDSolver<R> {
    fixed_targets_cache: Option<(R, Option<FixedTargets<R>>)>,
}

impl<R> View for CCDSolver<R> {
    type V = Cache<R>;

    closed spec fn view(&self) -> Cache<R> {
        match self.fixed_targets_cache {
            Some((p, Some(list))) => Some((p, Some(list@))),
            Some((p, None)) => Some((p, None)),
            None => None,
        }
    }
}

/// Those of the bodies that have to be swept: the bullets, or the others.
pub fn pick_fast<R: Real>(
    bodies: &RigidBodySet<R>,
    active: &Vec<RigidBodyHandle>,
    bullets: bool,
) -> (out: Vec<RigidBodyHandle>)
    ensures
        out@ == fast_ones(bodies@, active@, bullets, active@.len()),
{
    let mut out: Vec<RigidBodyHandle> = Vec::new();
    let n: usize = active.len();
    for i in 0..n
        invariant
            n == active@.len(),
            out@ == fast_ones(bodies@, active@, bullets, i as nat),
    {
        let h = active[i];
        if let Some(rb) = bodies.get(h) {
            if rb.ccd.ccd_active && rb.ccd.ccd_enabled == bullets {
                out.push(h);
            }
        }
    }
    out
}

fn is_asked(asked: &Vec<RigidBodyHandle>, h: RigidBodyHandle) -> (b: bool)
    ensures
        b == asked@.contains(h),
{
    let n: usize = asked.len();
    for i in 0..n
        invariant
            n == asked@.len(),
            forall|k: int| 0 <= k < i ==> #[trigger] asked@[k] != h,
    {
        if asked[i] == h {
            assert(asked@[i as int] == h);
            return true;
        }
    }
    false
}

fn has_answer<R>(results: &Vec<BodyContinuousResult<R>>, h: RigidBodyHandle) -> (b: bool)
    ensures
        b == answered(results@.map_values(|r: BodyContinuousResult<R>| r@), h),
{
    let n: usize = results.len();
    let ghost found = results@.map_values(|r: BodyContinuousResult<R>| r@);
    for i in 0..n
        invariant
            n == results@.len(),
            found == results@.map_values(|r: BodyContinuousResult<R>| r@),
            forall|k: int| 0 <= k < i ==> (#[trigger] found[k]).handle != h,
    {
        assert(found[i as int] == results@[i as int]@);
        if results[i].handle == h {
            assert(found[i as int].handle == h);
            return true;
        }
    }
    false
}

fn keep_answers<R: Real>(
    bodies: &RigidBodySet<R>,
    asked: &Vec<RigidBodyHandle>,
    results: Vec<BodyContinuousResult<R>>,
) -> (kept: Vec<BodyContinuousResult<R>>)
    ensures
        kept@.map_values(|r: BodyContinuousResult<R>| r@) == answers(
            bodies@,
            asked@,
            results@.map_values(|r: BodyContinuousResult<R>| r@),
            results@.len(),
        ),
{
    let ghost all = results@;
    let ghost found = results@.map_values(|r: BodyContinuousResult<R>| r@);
    let n: usize = results.len();
    let mut rest = results;
    let mut kept: Vec<BodyContinuousResult<R>> = Vec::new();
    for i in 0..n
        invariant
            n == all.len(),
            found == all.map_values(|r: BodyContinuousResult<R>| r@),
            rest@ == all.skip(i as int),
            kept@.map_values(|r: BodyContinuousResult<R>| r@) == answers(
                bodies@,
                asked@,
                found,
                i as nat,
            ),
    {
        let r = rest.remove(0);
        assert(r == all[i as int]);
        assert(found[i as int] == r@);
        assert(rest@ =~= all.skip(i + 1));
        let fast = match bodies.get(r.handle) {
            Some(rb) => rb.ccd.ccd_active,
            None => false,
        };
        if is_asked(asked, r.handle) && fast && !has_answer(&kept, r.handle) {
            let ghost before = kept@;
            kept.push(r);
            assert(kept@.map_values(|r: BodyContinuousResult<R>| r@) =~= before.map_values(
                |r: BodyContinuousResult<R>| r@,
            ).push(r@));
        }
    }
    kept
}

fn early_hits<R: Real>(r: &BodyContinuousResult<R>) -> (out: Vec<PseudoHit<R>>)
    ensures
        out@ == early(r@.pseudo_hits, r@.fraction, r@.pseudo_hits.len()),
{
    let mut out: Vec<PseudoHit<R>> = Vec::new();
    let n: usize = r.pseudo_hits.len();
    for i in 0..n
        invariant
            n == r.pseudo_hits@.len(),
            out@ == early(r@.pseudo_hits, r@.fraction, i as nat),
    {
        let hit = r.pseudo_hits[i];
        if !r.fraction.le(hit.fraction) {
            out.push(hit);
        }
    }
    out
}

fn passed_hits<R: Real>(results: &Vec<BodyContinuousResult<R>>) -> (out: Vec<PseudoHit<R>>)
    ensures
        out@ == passed(
            results@.map_values(|r: BodyContinuousResult<R>| r@),
            results@.len(),
        ),
{
    let mut out: Vec<PseudoHit<R>> = Vec::new();
    let n: usize = results.len();
    let ghost found = results@.map_values(|r: BodyContinuousResult<R>| r@);
    for i in 0..n
        invariant
            n == results@.len(),
            found == results@.map_values(|r: BodyContinuousResult<R>| r@),
            out@ == passed(found, i as nat),
    {
        assert(found[i as int] == results@[i as int]@);
        let mut more = early_hits(&results[i]);
        out.append(&mut more);
    }
    out
}

fn events_for<R: Real>(hits: &Vec<PseudoHit<R>>, probes: &Vec<SensorProbe>) -> (out: Vec<
    CollisionEvent,
>)
    requires
        hits@.len() == probes@.len(),
    ensures
        out@ == crossing_events(hits@, probes@, hits@.len()),
{
    let mut out: Vec<CollisionEvent> = Vec::new();
    let n: usize = hits.len();
    for i in 0..n
        invariant
            n == hits@.len(),
            n == probes@.len(),
            out@ == crossing_events(hits@, probes@, i as nat),
    {
        let p = probes[i];
        if p.sensor && p.wants_events && !p.intersect_before && !p.intersect_after {
            let flags = CollisionEventFlags::passed_sensor();
            out.push(CollisionEvent::Started(hits[i].ch1, hits[i].ch2, flags));
            out.push(CollisionEvent::Stopped(hits[i].ch1, hits[i].ch2, flags));
        }
    }
    out
}

impl<R: Real> CCDSolver<R> {
    /// A solver that remembers nothing.
    pub fn new() -> (s: CCDSolver<R>)
        ensures
            s@ is None,
    {
        CCDSolver { fixed_targets_cache: None }
    }

    /// Brings the flags of the bodies that are awake up to date, and tells whether one of them
    /// has to be swept. Only bodies that are moved by forces are looked at.
    pub fn update_ccd_active_flags(
        &self,
        active: &[RigidBodyHandle],
        bodies: &mut RigidBodySet<R>,
        include_forces: bool,
    ) -> (any: bool)
        ensures
            final(bodies)@ == flags_updated(
                old(bodies)@,
                active@,
                include_forces,
                active@.len(),
            ),
            any == any_fast(old(bodies)@, active@, include_forces, active@.len()),
    {
        let mut any = false;
        let n: usize = active.len();
        let ghost start = bodies@;
        for i in 0..n
            invariant
                n == active@.len(),
                bodies@ == flags_updated(start, active@, include_forces, i as nat),
                any == any_fast(start, active@, include_forces, i as nat),
        {
            let h = active[i];
            let ghost now = bodies@;
            proof {
                lemma_flags_keep_estimates(start, active@, include_forces, i as nat, h);
            }
            let ghost was = any;
            if let Some(rb) = bodies.get_mut(h) {
                if rb.is_dynamic() {
                    let fast = if include_forces {
                        rb.ccd.fast_before_solve
                    } else {
                        rb.ccd.fast_after_solve
                    };
                    rb.ccd.ccd_active = fast;
                    any = any || fast;
                }
            }
            proof {
                assert(any == (was || fast_at(start, active@[i as int], include_forces)));
                if any_fast(start, active@, include_forces, (i + 1) as nat) {
                    let k = choose|k: int|
                        0 <= k < i + 1 && #[trigger] fast_at(start, active@[k], include_forces);
                    if k < i {
                        assert(was);
                    }
                }
                if was {
                    let k = choose|k: int|
                        0 <= k < i && #[trigger] fast_at(start, active@[k], include_forces);
                    assert(fast_at(start, active@[k], include_forces));
                }
            }
        }
        any
    }

    /// The time of the first impact within `dt`, from the fractions that the sweeps of the fast
    /// bodies found. There is none if no fraction is below one.
    pub fn find_first_impact(&self, dt: R, fractions: &[R]) -> (r: Option<R>)
        ensures
            r == first_impact(dt, fractions@),
    {
        let mut least = R::one();
        let n: usize = fractions.len();
        for i in 0..n
            invariant
                n == fractions@.len(),
                least == smallest(fractions@, i as nat),
        {
            least = least.min(fractions[i]);
        }
        if least.lt(R::one()) {
            Some(least.mul(dt))
        } else {
            None
        }
    }

    /// Takes the poses of the bodies that hit something back to their impact, and records where
    /// that was.
    pub fn apply_clamps(bodies: &mut RigidBodySet<R>, results: &Vec<BodyContinuousResult<R>>)
        ensures
            final(bodies)@ == clamped(
                old(bodies)@,
                results@.map_values(|r: BodyContinuousResult<R>| r@),
                results@.len(),
            ),
    {
        let n: usize = results.len();
        let ghost start = bodies@;
        let ghost found = results@.map_values(|r: BodyContinuousResult<R>| r@);
        for i in 0..n
            invariant
                n == results@.len(),
                found == results@.map_values(|r: BodyContinuousResult<R>| r@),
                bodies@ == clamped(start, found, i as nat),
        {
            assert(found[i as int] == results@[i as int]@);
            let r = &results[i];
            if r.fraction.lt(R::one()) {
                if let Some(rb) = bodies.get_mut(r.handle) {
                    let sweep = Sweep::from_poses(
                        rb.position,
                        rb.next_position,
                        rb.mprops.local_com,
                    );
                    rb.next_position = sweep.transform_at(r.fraction);
                    if let Some(hit) = r.toi {
                        rb.ccd.impact = Some(hit);
                    }
                }
            }
        }
    }

    /// Goes one step on in the pass over the fast bodies, given what the caller found.
    ///
    /// Fast bodies are swept against fixed colliders first, then bullets against everything, with
    /// the others already stopped. At last the events for sensors that were passed through are
    /// decided. A reply that does not fit what was asked for changes nothing, and of several
    /// results for a body the first one counts.
    pub fn solve_continuous(
        &mut self,
        task: ContinuousTask<R>,
        reply: ContinuousReply<R>,
        bodies: &mut RigidBodySet<R>,
    ) -> (next: ContinuousTask<R>)
        ensures
            next@ == next_task(old(self)@, old(bodies)@, task@, reply@),
            final(self)@ == next_cache(old(self)@, task@, reply@),
            final(bodies)@ == next_bodies(old(bodies)@, task@, reply@),
    {
        match task {
            ContinuousTask::Start { active, prediction, scene_changed } => {
                let non_bullets = pick_fast(bodies, &active, false);
                let bullets = pick_fast(bodies, &active, true);
                let valid = !scene_changed && match &self.fixed_targets_cache {
                    Some((p, targets)) => p.equals(prediction),
                    None => false,
                };
                if valid {
                    ContinuousTask::SweepFixed { non_bullets, bullets }
                } else {
                    ContinuousTask::CollectTargets { non_bullets, bullets, prediction }
                }
            },
            ContinuousTask::CollectTargets { non_bullets, bullets, prediction } => match reply {
                ContinuousReply::Targets(targets) => {
                    self.fixed_targets_cache = Some((prediction, targets));
                    ContinuousTask::SweepFixed { non_bullets, bullets }
                },
                _ => ContinuousTask::CollectTargets { non_bullets, bullets, prediction },
            },
            ContinuousTask::SweepFixed { non_bullets, bullets } => match reply {
                ContinuousReply::Results(results) => {
                    let kept = keep_answers(bodies, &non_bullets, results);
                    Self::apply_clamps(bodies, &kept);
                    let hits = passed_hits(&kept);
                    if bullets.len() == 0 {
                        ContinuousTask::Probe { hits }
                    } else {
                        ContinuousTask::SweepBullets { bullets, hits }
                    }
                },
                _ => ContinuousTask::SweepFixed { non_bullets, bullets },
            },
            ContinuousTask::SweepBullets { bullets, hits } => match reply {
                ContinuousReply::Results(results) => {
                    let kept = keep_answers(bodies, &bullets, results);
                    Self::apply_clamps(bodies, &kept);
                    let mut all = hits;
                    let mut more = passed_hits(&kept);
                    all.append(&mut more);
                    ContinuousTask::Probe { hits: all }
                },
                _ => ContinuousTask::SweepBullets { bullets, hits },
            },
            ContinuousTask::Probe { hits } => match reply {
                ContinuousReply::Probes(probes) => if probes.len() == hits.len() {
                    let events = events_for(&hits, &probes);
                    ContinuousTask::Finished { events }
                } else {
                    ContinuousTask::Probe { hits }
                },
                _ => ContinuousTask::Probe { hits },
            },
            ContinuousTask::Finished { events } => ContinuousTask::Finished { events },
        }
    }

    /// The list of fixed colliders to sweep against; none if everything has to be searched.
    pub fn fixed_targets(&self) -> (r: Option<&FixedTargets<R>>)
        ensures
            match r {
                Some(list) => self@ matches Some(c) && c.1 == Some(list@),
                None => self@ is None || (self@->0).1 is None,
            },
    {
        match &self.fixed_targets_cache {
            Some((p, Some(list))) => Some(list),
            _ => None,
        }
    }
}

impl<R: Real> Default for CCDSolver<R> {
    fn default() -> (s: CCDSolver<R>)
        ensures
            s@ is None,
    {
        CCDSolver::new()
    }
}

/// Stopping bodies changes nothing about any of them but the pose at the end of the step and the
/// record of the impact; velocities stay.
pub proof fn lemma_clamping_keeps_velocities<R: Real>(
    slots: Seq<SlotModel<R>>,
    results: Seq<Found<R>>,
    n: nat,
    h: RigidBodyHandle,
)
    ensures
        match rigid_body::body_at(slots, h) {
            Some(rb) => {
                let after = rigid_body::body_at(clamped(slots, results, n), h);
                &&& after is Some
                &&& after->0 == (BodyModel {
                    next_position: after->0.next_position,
                    ccd: RigidBodyCcd { impact: after->0.ccd.impact, ..rb.ccd },
                    ..rb
                })
            },
            None => rigid_body::body_at(clamped(slots, results, n), h) is None,
        },
    decreases n,
{
    if n > 0 {
        lemma_clamping_keeps_velocities(slots, results, (n - 1) as nat, h);
    }
}

/// A body that hit nothing is not stopped.
pub proof fn lemma_unhit_bodies_go_on<R: Real>(
    slots: Seq<SlotModel<R>>,
    results: Seq<Found<R>>,
    n: nat,
    h: RigidBodyHandle,
)
    requires
        n <= results.len(),
        forall|i: int|
            0 <= i < results.len() && (#[trigger] results[i]).handle == h
                ==> !results[i].fraction.lt(R::one()),
    ensures
        rigid_body::body_at(clamped(slots, results, n), h) == rigid_body::body_at(slots, h),
    decreases n,
{
    if n > 0 {
        lemma_unhit_bodies_go_on(slots, results, (n - 1) as nat, h);
        assert(results[n - 1].handle == h ==> !results[n - 1].fraction.lt(R::one()));
    }
}

/// Only what was passed through before the impact is reported on: every pair that is looked at
/// belongs to a result with a later impact.
pub proof fn lemma_passed_before_impact<R: Real>(results: Seq<Found<R>>, n: nat, k: int)
    requires
        n <= results.len(),
        0 <= k < passed(results, n).len(),
    ensures
        exists|i: int|
            0 <= i < n && (#[trigger] results[i]).pseudo_hits.contains(passed(results, n)[k])
                && !results[i].fraction.le(passed(results, n)[k].fraction),
    decreases n,
{
    if n > 0 {
        let before = passed(results, (n - 1) as nat);
        let r = results[n - 1];
        if k < before.len() {
            lemma_passed_before_impact(results, (n - 1) as nat, k);
            let i = choose|i: int|
                0 <= i < n - 1 && (#[trigger] results[i]).pseudo_hits.contains(before[k])
                    && !results[i].fraction.le(before[k].fraction);
            assert(results[i].pseudo_hits.contains(passed(results, n)[k]));
        } else {
            let m = r.pseudo_hits.len();
            lemma_early(r.pseudo_hits, r.fraction, m, k - before.len());
            assert(passed(results, n)[k] == early(r.pseudo_hits, r.fraction, m)[k - before.len()]);
            assert(results[n - 1].pseudo_hits.contains(passed(results, n)[k]));
        }
    }
}

proof fn lemma_early<R: Real>(hits: Seq<PseudoHit<R>>, fraction: R, n: nat, k: int)
    requires
        n <= hits.len(),
        0 <= k < early(hits, fraction, n).len(),
    ensures
        hits.contains(early(hits, fraction, n)[k]),
        !fraction.le(early(hits, fraction, n)[k].fraction),
    decreases n,
{
    if n > 0 {
        let before = early(hits, fraction, (n - 1) as nat);
        if k < before.len() {
            lemma_early(hits, fraction, (n - 1) as nat, k);
        } else {
            assert(hits[n - 1] == early(hits, fraction, n)[k]);
        }
    }
}

/// Events come in pairs: whatever was entered was left again right after.
pub proof fn lemma_events_are_paired<R>(
    hits: Seq<PseudoHit<R>>,
    probes: Seq<SensorProbe>,
    n: nat,
)
    ensures
        crossing_events(hits, probes, n).len() % 2 == 0,
        forall|k: int|
            0 <= 2 * k < crossing_events(hits, probes, n).len() ==> {
                &&& #[trigger] crossing_events(hits, probes, n)[2 * k] is Started
                &&& crossing_events(hits, probes, n)[2 * k + 1] == CollisionEvent::Stopped(
                    crossing_events(hits, probes, n)[2 * k]->Started_0,
                    crossing_events(hits, probes, n)[2 * k]->Started_1,
                    crossing_events(hits, probes, n)[2 * k]->Started_2,
                )
            },
    decreases n,
{
    if n > 0 {
        lemma_events_are_paired(hits, probes, (n - 1) as nat);
        let before = crossing_events(hits, probes, (n - 1) as nat);
        let after = crossing_events(hits, probes, n);
        assert forall|k: int| 0 <= 2 * k < after.len() implies {
            &&& #[trigger] after[2 * k] is Started
            &&& after[2 * k + 1] == CollisionEvent::Stopped(
                after[2 * k]->Started_0,
                after[2 * k]->Started_1,
                after[2 * k]->Started_2,
            )
        } by {
            if 2 * k < before.len() {
                assert(after[2 * k] == before[2 * k]);
                assert(after[2 * k + 1] == before[2 * k + 1]);
            }
        }
    }
}

/// The bodies that a task asks to be swept.
pub open spec fn asked_for<R>(task: Task<R>) -> Seq<RigidBodyHandle> {
    match task {
        Task::SweepFixed { non_bullets, bullets } => non_bullets,
        Task::SweepBullets { bullets, hits } => bullets,
        _ => Seq::empty(),
    }
}

proof fn lemma_answers<R>(
    slots: Seq<SlotModel<R>>,
    asked: Seq<RigidBodyHandle>,
    results: Seq<Found<R>>,
    n: nat,
)
    requires
        n <= results.len(),
    ensures
        forall|i: int|
            0 <= i < answers(slots, asked, results, n).len() ==> {
                let r = #[trigger] answers(slots, asked, results, n)[i];
                &&& results.contains(r)
                &&& asked.contains(r.handle)
                &&& is_fast(slots, r.handle)
            },
        forall|i: int, j: int|
            0 <= i < j < answers(slots, asked, results, n).len() ==> (#[trigger] answers(
                slots,
                asked,
                results,
                n,
            )[i]).handle != (#[trigger] answers(slots, asked, results, n)[j]).handle,
    decreases n,
{
    if n > 0 {
        lemma_answers(slots, asked, results, (n - 1) as nat);
        let before = answers(slots, asked, results, (n - 1) as nat);
        let after = answers(slots, asked, results, n);
        let r = results[n - 1];
        assert(results.contains(r));
        assert forall|i: int| 0 <= i < after.len() implies {
            let r = #[trigger] after[i];
            &&& results.contains(r)
            &&& asked.contains(r.handle)
            &&& is_fast(slots, r.handle)
        } by {
            if i < before.len() {
                assert(after[i] == before[i]);
            }
        }
        assert forall|i: int, j: int| 0 <= i < j < after.len() implies (
        #[trigger] after[i]).handle != (#[trigger] after[j]).handle by {
            assert(after[i] == before[i]);
            if j < before.len() {
                assert(after[j] == before[j]);
            } else {
                assert(before[i].handle == r.handle ==> answered(before, r.handle));
            }
        }
    }
}

/// The bodies that `clamped` has dealt with: one that a single result stops, or none.
proof fn lemma_clamped_once<R: Real>(
    slots: Seq<SlotModel<R>>,
    results: Seq<Found<R>>,
    n: nat,
    h: RigidBodyHandle,
)
    requires
        n <= results.len(),
        forall|i: int, j: int|
            0 <= i < j < results.len() ==> (#[trigger] results[i]).handle != (
            #[trigger] results[j]).handle,
    ensures
        ({
            let now = rigid_body::body_at(clamped(slots, results, n), h);
            let was = rigid_body::body_at(slots, h);
            ||| now == was
            ||| was is Some && exists|i: int|
                0 <= i < n && (#[trigger] results[i]).handle == h && results[i].fraction.lt(
                    R::one(),
                ) && now == Some(stopped(was->0, results[i]))
        }),
        (forall|i: int| 0 <= i < n ==> (#[trigger] results[i]).handle != h)
            ==> rigid_body::body_at(clamped(slots, results, n), h) == rigid_body::body_at(slots, h),
    decreases n,
{
    if n > 0 {
        lemma_clamped_once(slots, results, (n - 1) as nat, h);
        let before = clamped(slots, results, (n - 1) as nat);
        let r = results[n - 1];
        if r.handle == h {
            assert forall|i: int| 0 <= i < n - 1 implies (#[trigger] results[i]).handle != h by {
                assert(results[i].handle != results[n - 1].handle);
            }
            assert(rigid_body::body_at(before, h) == rigid_body::body_at(slots, h));
        }
    }
}

/// In a pass over the fast bodies only a body that was asked for and has to be swept is changed.
/// Its pose at the end of the step becomes one on its motion, at a fraction below one that was
/// found for it; its velocities, its pose at the start of the step and all else but the record of
/// the impact stay.
pub proof fn lemma_only_asked_bodies_are_stopped<R: Real>(
    slots: Seq<SlotModel<R>>,
    task: Task<R>,
    reply: Reply<R>,
    h: RigidBodyHandle,
)
    ensures
        rigid_body::body_at(next_bodies(slots, task, reply), h) == rigid_body::body_at(slots, h)
            || {
            &&& asked_for(task).contains(h)
            &&& is_fast(slots, h)
            &&& reply is Results
            &&& exists|i: int|
                0 <= i < reply->Results_0.len() && (#[trigger] reply->Results_0[i]).handle == h
                    && reply->Results_0[i].fraction.lt(R::one()) && rigid_body::body_at(
                    next_bodies(slots, task, reply),
                    h,
                ) == Some(stopped(rigid_body::body_at(slots, h)->0, reply->Results_0[i]))
        },
{
    let asked = asked_for(task);
    if let Reply::Results(results) = reply {
        if task is SweepFixed || task is SweepBullets {
            let kept = answers(slots, asked, results, results.len());
            lemma_answers(slots, asked, results, results.len());
            lemma_clamped_once(slots, kept, kept.len(), h);
            let now = rigid_body::body_at(clamped(slots, kept, kept.len()), h);
            let was = rigid_body::body_at(slots, h);
            if now != was {
                let i = choose|i: int|
                    0 <= i < kept.len() && (#[trigger] kept[i]).handle == h
                        && kept[i].fraction.lt(R::one()) && now == Some(stopped(was->0, kept[i]));
                assert(results.contains(kept[i]));
                let k = choose|k: int| 0 <= k < results.len() && results[k] == kept[i];
                assert(reply->Results_0[k].handle == h);
            }
        }
    }
}

/// What is asked for in a pass that starts with the active bodies is to sweep active bodies that
/// are fast: bullets in the second round, the others in the first.
pub proof fn lemma_fast_bodies_are_asked_for<R>(
    slots: Seq<SlotModel<R>>,
    active: Seq<RigidBodyHandle>,
    bullets: bool,
    n: nat,
    h: RigidBodyHandle,
)
    requires
        n <= active.len(),
    ensures
        fast_ones(slots, active, bullets, n).contains(h) <==> active.take(n as int).contains(h)
            && is_fast(slots, h) && is_fast_bullet(slots, h) == bullets,
    decreases n,
{
    if n > 0 {
        lemma_fast_bodies_are_asked_for(slots, active, bullets, (n - 1) as nat, h);
        let before = fast_ones(slots, active, bullets, (n - 1) as nat);
        let after = fast_ones(slots, active, bullets, n);
        let shorter = active.take(n - 1);
        let longer = active.take(n as int);
        assert(longer =~= shorter.push(active[n - 1]));
        assert(longer[n - 1] == active[n - 1]);
        if shorter.contains(h) {
            let k = choose|k: int| 0 <= k < shorter.len() && shorter[k] == h;
            assert(longer[k] == h);
        }
        if before.contains(h) {
            let k = choose|k: int| 0 <= k < before.len() && before[k] == h;
            assert(after[k] == h);
        }
        if after.len() > before.len() {
            assert(after[before.len() as int] == active[n - 1]);
        }
    }
}

/// A pass over the fast bodies on its way.
pub ghost struct Pass<R> {
    /// The bodies.
    pub bodies: Seq<SlotModel<R>>,
    /// What is needed next.
    pub task: Task<R>,
}

/// A pass over the active bodies after the first `n` replies.
pub open spec fn pass_after<R: Real>(
    cache: Cache<R>,
    slots: Seq<SlotModel<R>>,
    start: Task<R>,
    replies: Seq<Reply<R>>,
    n: nat,
) -> Pass<R>
    decreases n,
{
    if n == 0 {
        Pass { bodies: slots, task: next_task(cache, slots, start, Reply::Nothing) }
    } else {
        let p = pass_after(cache, slots, start, replies, (n - 1) as nat);
        Pass {
            bodies: next_bodies(p.bodies, p.task, replies[n - 1]),
            task: next_task(cache, p.bodies, p.task, replies[n - 1]),
        }
    }
}

/// Whether a body is as it was, or was stopped once on its motion at a fraction below one.
pub open spec fn stopped_at_most_once<R: Real>(
    was: Option<BodyModel<R>>,
    now: Option<BodyModel<R>>,
    h: RigidBodyHandle,
) -> bool {
    now == was || was is Some && exists|found: Found<R>|
        found.handle == h && found.fraction.lt(R::one()) && now == Some(
            #[trigger] stopped(was->0, found),
        )
}

proof fn lemma_pass_so_far<R: Real>(
    cache: Cache<R>,
    slots: Seq<SlotModel<R>>,
    active: Seq<RigidBodyHandle>,
    prediction: R,
    scene_changed: bool,
    replies: Seq<Reply<R>>,
    n: nat,
    h: RigidBodyHandle,
)
    requires
        n <= replies.len(),
    ensures
        ({
            let p = pass_after(
                cache,
                slots,
                Task::Start { active, prediction, scene_changed },
                replies,
                n,
            );
            let was = rigid_body::body_at(slots, h);
            let now = rigid_body::body_at(p.bodies, h);
            let swept = active.contains(h) && is_fast(slots, h);
            &&& now != was ==> swept && stopped_at_most_once(was, now, h)
            &&& match p.task {
                Task::Start { active, prediction, scene_changed } => false,
                Task::CollectTargets { non_bullets, bullets, prediction } => {
                    &&& now == was
                    &&& non_bullets == fast_ones(slots, active, false, active.len())
                    &&& bullets == fast_ones(slots, active, true, active.len())
                },
                Task::SweepFixed { non_bullets, bullets } => {
                    &&& now == was
                    &&& non_bullets == fast_ones(slots, active, false, active.len())
                    &&& bullets == fast_ones(slots, active, true, active.len())
                },
                Task::SweepBullets { bullets, hits } => {
                    &&& is_fast_bullet(slots, h) ==> now == was
                    &&& bullets == fast_ones(slots, active, true, active.len())
                },
                _ => true,
            }
        }),
    decreases n,
{
    let start = Task::Start { active, prediction, scene_changed };
    if n > 0 {
        let m = (n - 1) as nat;
        lemma_pass_so_far(cache, slots, active, prediction, scene_changed, replies, m, h);
        let p = pass_after(cache, slots, start, replies, m);
        lemma_only_asked_bodies_are_stopped(p.bodies, p.task, replies[m as int], h);
        lemma_fast_bodies_are_asked_for(slots, active, false, active.len(), h);
        lemma_fast_bodies_are_asked_for(slots, active, true, active.len(), h);
        assert(active.take(active.len() as int) =~= active);
    }
}

/// In a pass over the fast bodies, whatever is replied to what it asks for, every body is as it was
/// but for those that are active and fast. Such a body may be stopped, once: its pose at the end of
/// the step becomes the one at a fraction below one of its motion, and it keeps its velocities and
/// its pose at the start of the step.
pub proof fn lemma_pass_stops_fast_active_bodies<R: Real>(
    cache: Cache<R>,
    slots: Seq<SlotModel<R>>,
    active: Seq<RigidBodyHandle>,
    prediction: R,
    scene_changed: bool,
    replies: Seq<Reply<R>>,
    n: nat,
    h: RigidBodyHandle,
)
    requires
        n <= replies.len(),
    ensures
        ({
            let start = Task::Start { active, prediction, scene_changed };
            let was = rigid_body::body_at(slots, h);
            let now = rigid_body::body_at(pass_after(cache, slots, start, replies, n).bodies, h);
            &&& stopped_at_most_once(was, now, h)
            &&& now != was ==> active.contains(h) && is_fast(slots, h)
            &&& was is Some ==> {
                &&& now is Some
                &&& now->0.linvel == was->0.linvel
                &&& now->0.angvel == was->0.angvel
                &&& now->0.position == was->0.position
            }
        }),
{
    lemma_pass_so_far(cache, slots, active, prediction, scene_changed, replies, n, h);
}

/// The start of a motion by the shorter way: a rotation and its opposite do the same.
pub open spec fn shorter(a: Turn, b: Turn) -> Turn {
    if a.inner(b) < 0real {
        a.times(-1real)
    } else {
        a
    }
}

/// The square of a point of the chord between two unit rotations.
proof fn lemma_chord(f: Turn, g: Turn, t: real)
    requires
        f.inner(f) == 1real,
        g.inner(g) == 1real,
        0real <= f.inner(g),
        0real <= t <= 1real,
    ensures
        ({
            let m = f.times(1real - t).plus(g.times(t));
            let c = f.inner(g);
            &&& m.inner(f) == (1real - t) + c * t
            &&& m.inner(g) == c * (1real - t) + t
            &&& m.inner(m) == (1real - t) * (1real - t) + 2real * (c * (t * (1real - t))) + t * t
            &&& 0real < m.inner(m) <= 1real
            &&& m.inner(f) >= c
            &&& m.inner(g) >= c
            &&& c < 1real && t < 1real ==> m.inner(f) > c
            &&& c < 1real && t > 0real ==> m.inner(g) > c
        }),
{
    let m = f.times(1real - t).plus(g.times(t));
    let c = f.inner(g);
    let (a, b) = (f.times(1real - t), g.times(t));
    reals::lemma_unit_turns(f, g);
    reals::lemma_turn_inner(a, b, f, 0real);
    reals::lemma_turn_inner(a, b, g, 0real);
    reals::lemma_turn_inner(a, b, m, 0real);
    reals::lemma_turn_inner(f, g, f, 1real - t);
    reals::lemma_turn_inner(f, g, g, 1real - t);
    reals::lemma_turn_inner(g, f, f, t);
    reals::lemma_turn_inner(g, f, g, t);
    reals::lemma_turn_inner(f, m, m, 1real - t);
    reals::lemma_turn_inner(g, m, m, t);
    let (x, y) = (m.inner(f), m.inner(g));
    reals::lemma_trivial_factors(1real - t);
    reals::lemma_trivial_factors(t);
    assert(m.inner(m) == x * (1real - t) + y * t);
    lemma_chord_square(t, c, x, y);
    lemma_chord_bounds(t, c);
}

/// The square of a point of a chord.
proof fn lemma_chord_square(t: real, c: real, x: real, y: real)
    requires
        x == (1real - t) + c * t,
        y == c * (1real - t) + t,
    ensures
        x * (1real - t) + y * t == 1real - 2real * (t * (1real - t)) + 2real * (c * (t * (1real
            - t))),
        (1real - t) * (1real - t) + t * t == 1real - 2real * (t * (1real - t)),
{
    let r = 1real - t;
    reals::lemma_sum_times(r, c * t, r);
    reals::lemma_sum_times(c * r, t, t);
    reals::lemma_factors(c, t, r);
    reals::lemma_factors(c, r, t);
    reals::lemma_sum_times(r, 0real, t);
    reals::lemma_sum_times(1real, t, r);
    reals::lemma_sum_times(1real, t, t);
    reals::lemma_trivial_factors(r);
    reals::lemma_trivial_factors(t);
}

/// How the inner product of a point of a chord with its ends is bounded.
proof fn lemma_chord_bounds(t: real, c: real)
    requires
        0real <= t <= 1real,
        0real <= c <= 1real,
    ensures
        0real <= t * (1real - t),
        4real * (t * (1real - t)) <= 1real,
        0real <= c * (t * (1real - t)) <= t * (1real - t),
        (1real - t) + c * t - c == (1real - t) * (1real - c),
        c * (1real - t) + t - c == t * (1real - c),
        (1real - t) * (1real - c) >= 0real,
        t * (1real - c) >= 0real,
        c < 1real && t < 1real ==> (1real - t) * (1real - c) > 0real,
        c < 1real && t > 0real ==> t * (1real - c) > 0real,
{
    let r = 1real - t;
    let u = t * r;
    reals::lemma_product_sign(t, r);
    reals::lemma_product_sign(c, u);
    reals::lemma_product_sign(1real - c, u);
    reals::lemma_sum_times(1real, c, u);
    reals::lemma_trivial_factors(u);
    let h = t + t - 1real;
    reals::lemma_sum_times(1real, t, t);
    reals::lemma_trivial_factors(t);
    reals::lemma_trivial_factors(h);
    reals::lemma_sum_times(t + t, 1real, h);
    reals::lemma_sum_times(t + t, 1real, t);
    reals::lemma_sum_times(t, t, t);
    reals::lemma_sum_times(t, t, h);
    reals::lemma_sum_times(t, t, t + t - 1real);
    if h != 0real {
        reals::lemma_positive_square(h);
    }
    assert(h * h == 1real - 4real * u);
    reals::lemma_sum_times(1real, c, r);
    reals::lemma_sum_times(1real, c, t);
    reals::lemma_sum_times(1real, t, c);
    reals::lemma_trivial_factors(r);
    reals::lemma_trivial_factors(c);
    reals::lemma_product_sign(r, 1real - c);
    reals::lemma_product_sign(t, 1real - c);
}

/// A unit multiple of an arrow that is not longer than one has at least its inner products.
proof fn lemma_stretched(x: real, n: real, r: real, c: real)
    requires
        0real < n <= 1real,
        r * n == x,
        x >= c >= 0real,
    ensures
        r >= c,
        x > c ==> r > c,
{
    if r < 0real {
        reals::lemma_product_sign(-r, n);
        reals::lemma_negative(r, n);
    }
    reals::lemma_product_sign(r, 1real - n);
    reals::lemma_sum_times(1real, n, r);
    reals::lemma_trivial_factors(r);
}

/// Between two rotations: at the fraction `t` a rotation has unit length and lies on the line
/// through the point of the chord at that fraction. It is at least as close to either end as these
/// are to each other, and closer in between; half-way it is as close to one as to the other; at
/// the ends it is the first and the second.
pub proof fn lemma_rotation_is_between<R: Real>(
    v: spec_fn(R) -> real,
    a: Rotation<R>,
    b: Rotation<R>,
    t: R,
)
    requires
        unrounded(v),
        turn(v, a).inner(turn(v, a)) == 1real,
        turn(v, b).inner(turn(v, b)) == 1real,
        0real <= v(t) <= 1real,
    ensures
        ({
            let g = turn(v, b);
            let f = shorter(turn(v, a), g);
            let r = turn(v, a.nlerp(b, t));
            &&& r.inner(r) == 1real
            &&& exists|n: real|
                n > 0real && #[trigger] r.times(n) == f.times(1real - v(t)).plus(g.times(v(t)))
            &&& r.inner(f) >= f.inner(g)
            &&& r.inner(g) >= f.inner(g)
            &&& f.inner(g) < 1real && v(t) < 1real ==> r.inner(f) > f.inner(g)
            &&& f.inner(g) < 1real && v(t) > 0real ==> r.inner(g) > f.inner(g)
            &&& 2real * v(t) == 1real ==> r.inner(f) == r.inner(g)
            &&& v(t) == 0real ==> r == f
            &&& v(t) == 1real ==> r == g
        }),
{
    let (f0, g) = (turn(v, a), turn(v, b));
    let f = shorter(f0, g);
    let tt = v(t);
    reals::lemma_turn_inner(f0, g, g, -1real);
    reals::lemma_turn_inner(f0, f, f, -1real);
    reals::lemma_turn_inner(f0, f0, f0, -1real);
    reals::lemma_turn_inner(f0, f0.times(-1real), f0, 0real);
    reals::lemma_vectors(v, a.v, b.v, t);
    assert(v(a.dot(b)) == f0.inner(g));
    let from = if a.dot(b).lt(R::zero()) {
        Rotation { v: a.v.neg(), w: a.w.neg() }
    } else {
        a
    };
    assert(f0.w * (-1real) == -f0.w);
    assert(turn(v, from) == f);
    assert(f.inner(f) == 1real && f.inner(g) >= 0real);
    lemma_chord(f, g, tt);
    let m = f.times(1real - tt).plus(g.times(tt));
    let mixed = Rotation {
        v: from.v.lerp(b.v, t),
        w: from.w.mul(R::one().sub(t)).add(b.w.mul(t)),
    };
    assert(turn(v, mixed) == m);
    reals::lemma_vectors(v, mixed.v, mixed.v, t);
    assert(v(mixed.dot(mixed)) == m.inner(m));
    let n = v(mixed.dot(mixed).sqrt());
    reals::lemma_trivial_factors(n);
    if n > 1real {
        reals::lemma_product_sign(n - 1real, n);
        reals::lemma_sum_times(n, 1real, n);
    }
    assert(0real < n <= 1real);
    let shrink = R::one().div(mixed.dot(mixed).sqrt());
    let k = v(shrink);
    reals::lemma_quotient(1real, n);
    let r = turn(v, a.nlerp(b, t));
    assert(r == m.times(k));
    lemma_shrunk(m, k, n);
    assert(r.times(n) == m);
    reals::lemma_turn_inner(r, r, f, n);
    reals::lemma_turn_inner(r, r, g, n);
    reals::lemma_turn_inner(r, m, m, n);
    reals::lemma_turn_inner(r, r, r, n);
    lemma_stretched(m.inner(f), n, r.inner(f), f.inner(g));
    lemma_stretched(m.inner(g), n, r.inner(g), f.inner(g));
    let rr = r.inner(r);
    reals::lemma_turn_inner(m, r, m, k);
    assert(m.inner(m) == rr * n * n) by {
        reals::lemma_turn_inner(r, r, m, n);
        reals::lemma_turn_inner(r, m, r, n);
    }
    reals::lemma_factors(rr, n, n);
    reals::lemma_product_sign(n, n);
    reals::lemma_trivial_factors(n * n);
    reals::lemma_cancel(rr, 1real, n * n);
    if 2real * tt == 1real {
        reals::lemma_cancel(r.inner(f), r.inner(g), n);
    }
    if tt == 0real || tt == 1real {
        let e = if tt == 0real {
            f
        } else {
            g
        };
        lemma_end_of_chord(f, g, tt);
        assert(m == e);
        reals::lemma_same_square(n, 1real);
        lemma_shrunk(m, k, n);
        assert(r.times(1real) == e);
        lemma_once(r);
    }
}

proof fn lemma_once(r: Turn)
    ensures
        r.times(1real) == r,
{
    reals::lemma_trivial_factors(r.axis.x);
    reals::lemma_trivial_factors(r.axis.y);
    reals::lemma_trivial_factors(r.axis.z);
    reals::lemma_trivial_factors(r.w);
}

proof fn lemma_end_of_chord(f: Turn, g: Turn, t: real)
    requires
        t == 0real || t == 1real,
    ensures
        t == 0real ==> f.times(1real - t).plus(g.times(t)) == f,
        t == 1real ==> f.times(1real - t).plus(g.times(t)) == g,
{
    lemma_once(f);
    lemma_once(g);
    reals::lemma_trivial_factors(f.axis.x);
    reals::lemma_trivial_factors(f.axis.y);
    reals::lemma_trivial_factors(f.axis.z);
    reals::lemma_trivial_factors(f.w);
    reals::lemma_trivial_factors(g.axis.x);
    reals::lemma_trivial_factors(g.axis.y);
    reals::lemma_trivial_factors(g.axis.z);
    reals::lemma_trivial_factors(g.w);
}

/// Shrinking and stretching back.
proof fn lemma_shrunk(m: Turn, k: real, n: real)
    requires
        k * n == 1real,
    ensures
        m.times(k).times(n) == m,
{
    reals::lemma_factors(m.axis.x, k, n);
    reals::lemma_factors(m.axis.y, k, n);
    reals::lemma_factors(m.axis.z, k, n);
    reals::lemma_factors(m.w, k, n);
    lemma_once(m);
}

/// A motion from one pose to another: the centre of mass is at the fraction `t` of the straight
/// way, the rotation is between those of the poses. At its ends the motion is at the poses.
pub proof fn lemma_motion_joins_its_poses<R: Real>(
    v: spec_fn(R) -> real,
    start: Pose<R>,
    end: Pose<R>,
    center: Vector<R>,
    t: R,
)
    requires
        unrounded(v),
        turn(v, start.rotation).inner(turn(v, start.rotation)) == 1real,
        turn(v, end.rotation).inner(turn(v, end.rotation)) == 1real,
        0real <= v(t) <= 1real,
    ensures
        ({
            let p = Sweep::from_poses(start, end, center).transform_at(t);
            let from = arrow(v, start.transform_point(center));
            let to = arrow(v, end.transform_point(center));
            let g = turn(v, end.rotation);
            let f = shorter(turn(v, start.rotation), g);
            let r = turn(v, p.rotation);
            &&& arrow(v, p.transform_point(center)) == from.plus(to.minus(from).times(v(t)))
            &&& r.inner(r) == 1real
            &&& exists|n: real|
                n > 0real && #[trigger] r.times(n) == f.times(1real - v(t)).plus(g.times(v(t)))
            &&& f.inner(g) < 1real && v(t) < 1real ==> r.inner(f) > f.inner(g)
            &&& f.inner(g) < 1real && v(t) > 0real ==> r.inner(g) > f.inner(g)
            &&& 2real * v(t) == 1real ==> r.inner(f) == r.inner(g)
            &&& v(t) == 0real ==> r == f && arrow(v, p.translation) == arrow(v, start.translation)
            &&& v(t) == 1real ==> r == g && arrow(v, p.translation) == arrow(v, end.translation)
        }),
{
    let m = Sweep::from_poses(start, end, center);
    let p = m.transform_at(t);
    let from = arrow(v, m.c1);
    let to = arrow(v, m.c2);
    lemma_rotation_is_between(v, start.rotation, end.rotation, t);
    let turned = p.rotation.rotate(center);
    let way = m.c1.lerp(m.c2, t);
    reals::lemma_vectors(v, way, turned, t);
    reals::lemma_vectors(v, turned, p.translation, t);
    reals::lemma_vectors(v, m.c1.scale(R::one().sub(t)), m.c2.scale(t), t);
    reals::lemma_vectors(v, m.c1, m.c1, R::one().sub(t));
    reals::lemma_vectors(v, m.c2, m.c2, t);
    let tt = v(t);
    assert(from.times(1real - tt).plus(to.times(tt)) == from.plus(to.minus(from).times(tt))) by {
        lemma_part_way(from.x, to.x, tt);
        lemma_part_way(from.y, to.y, tt);
        lemma_part_way(from.z, to.z, tt);
    }
    assert(arrow(v, way) == from.plus(to.minus(from).times(tt)));
    assert(arrow(v, p.transform_point(center)) == arrow(v, way));
    if tt == 0real || tt == 1real {
        let pose = if tt == 0real {
            start
        } else {
            end
        };
        lemma_same_image(v, p.rotation, pose.rotation, center);
        reals::lemma_vectors(v, pose.rotation.rotate(center), pose.translation, t);
        assert(arrow(v, way) == arrow(v, pose.transform_point(center)));
    }
}

proof fn lemma_part_way(a: real, b: real, t: real)
    ensures
        a * (1real - t) + b * t == a + (b - a) * t,
        t == 0real ==> a + (b - a) * t == a,
        t == 1real ==> a + (b - a) * t == b,
{
    reals::lemma_sum_times(1real, t, a);
    reals::lemma_sum_times(b, a, t);
    reals::lemma_trivial_factors(a);
    reals::lemma_trivial_factors(b);
}

/// A rotation and its opposite turn every point alike.
pub proof fn lemma_same_image<R: Real>(
    v: spec_fn(R) -> real,
    a: Rotation<R>,
    b: Rotation<R>,
    p: Vector<R>,
)
    requires
        unrounded(v),
        turn(v, a) == turn(v, b) || turn(v, a) == turn(v, b).times(-1real),
    ensures
        arrow(v, a.rotate(p)) == arrow(v, b.rotate(p)),
{
    reals::lemma_image(v, a, p);
    reals::lemma_image(v, b, p);
    reals::lemma_opposite_image(turn(v, b), arrow(v, p));
}

proof fn lemma_smallest<R: Real>(v: spec_fn(R) -> real, fractions: Seq<R>, n: nat)
    requires
        unrounded(v),
        n <= fractions.len(),
    ensures
        v(smallest(fractions, n)) <= 1real,
        forall|i: int| 0 <= i < n ==> v(smallest(fractions, n)) <= v(#[trigger] fractions[i]),
        v(smallest(fractions, n)) < 1real ==> exists|i: int|
            0 <= i < n && v(#[trigger] fractions[i]) == v(smallest(fractions, n)),
    decreases n,
{
    if n > 0 {
        lemma_smallest(v, fractions, (n - 1) as nat);
        let before = v(smallest(fractions, (n - 1) as nat));
        if before < 1real {
            let i = choose|i: int| 0 <= i < n - 1 && v(#[trigger] fractions[i]) == before;
            assert(v(fractions[i]) == before);
        }
        assert(v(fractions[n - 1]) == v(fractions[n - 1]));
    }
}

/// The first impact is that of one of the bodies, and no body hits anything before it. There is
/// one exactly if some body hits something within the step.
pub proof fn lemma_first_impact_is_first<R: Real>(
    v: spec_fn(R) -> real,
    dt: R,
    fractions: Seq<R>,
)
    requires
        unrounded(v),
        v(dt) > 0real,
    ensures
        first_impact(dt, fractions) is Some <==> exists|i: int|
            0 <= i < fractions.len() && v(#[trigger] fractions[i]) < 1real,
        first_impact(dt, fractions) matches Some(t) ==> {
            &&& forall|i: int|
                0 <= i < fractions.len() ==> v(t) <= v(#[trigger] fractions[i]) * v(dt)
            &&& exists|i: int|
                0 <= i < fractions.len() && v(#[trigger] fractions[i]) * v(dt) == v(t)
        },
{
    let n = fractions.len();
    lemma_smallest(v, fractions, n);
    let least = v(smallest(fractions, n));
    if exists|i: int| 0 <= i < n && v(#[trigger] fractions[i]) < 1real {
        let i = choose|i: int| 0 <= i < n && v(#[trigger] fractions[i]) < 1real;
        assert(least <= v(fractions[i]));
    }
    if first_impact(dt, fractions) is Some {
        assert forall|i: int| 0 <= i < n implies least * v(dt) <= v(#[trigger] fractions[i]) * v(
            dt,
        ) by {
            let (f, d) = (v(fractions[i]), v(dt));
            reals::lemma_product_sign(f - least, d);
            reals::lemma_sum_times(f, least, d);
        }
        let i = choose|i: int| 0 <= i < n && v(#[trigger] fractions[i]) == least;
        assert(v(fractions[i]) * v(dt) == least * v(dt));
    }
}

proof fn lemma_only_result<R: Real>(
    slots: Seq<SlotModel<R>>,
    results: Seq<Found<R>>,
    n: nat,
    k: int,
    h: RigidBodyHandle,
)
    requires
        0 <= k < results.len(),
        n <= results.len(),
        results[k].handle == h,
        results[k].fraction.lt(R::one()),
        forall|i: int| 0 <= i < results.len() && i != k ==> (#[trigger] results[i]).handle != h,
        rigid_body::body_at(slots, h) is Some,
    ensures
        rigid_body::body_at(clamped(slots, results, n), h) == Some(
            if k < n {
                stopped(rigid_body::body_at(slots, h)->0, results[k])
            } else {
                rigid_body::body_at(slots, h)->0
            },
        ),
    decreases n,
{
    if n > 0 {
        lemma_only_result(slots, results, (n - 1) as nat, k, h);
        assert(n - 1 != k ==> results[n - 1].handle != h);
    }
}

/// A body that hit something ends the step in the pose in which it hits: its centre of mass went
/// the straight way up to the fraction of the impact, and its rotation is the one between that
/// belongs to the fraction.
pub proof fn lemma_stopped_body_is_at_its_impact<R: Real>(
    v: spec_fn(R) -> real,
    slots: Seq<SlotModel<R>>,
    results: Seq<Found<R>>,
    k: int,
    rb: BodyModel<R>,
)
    requires
        unrounded(v),
        0 <= k < results.len(),
        forall|i: int|
            0 <= i < results.len() && i != k ==> (#[trigger] results[i]).handle
                != results[k].handle,
        rigid_body::body_at(slots, results[k].handle) == Some(rb),
        0real <= v(results[k].fraction) < 1real,
        turn(v, rb.position.rotation).inner(turn(v, rb.position.rotation)) == 1real,
        turn(v, rb.next_position.rotation).inner(turn(v, rb.next_position.rotation)) == 1real,
    ensures
        ({
            let t = v(results[k].fraction);
            let after = rigid_body::body_at(
                clamped(slots, results, results.len()),
                results[k].handle,
            );
            let com = rb.mprops.local_com;
            let p = after->0.next_position;
            let from = arrow(v, rb.position.transform_point(com));
            let to = arrow(v, rb.next_position.transform_point(com));
            let g = turn(v, rb.next_position.rotation);
            let f = shorter(turn(v, rb.position.rotation), g);
            let r = turn(v, p.rotation);
            &&& after is Some
            &&& arrow(v, p.transform_point(com)) == from.plus(to.minus(from).times(t))
            &&& r.inner(r) == 1real
            &&& exists|n: real|
                n > 0real && #[trigger] r.times(n) == f.times(1real - t).plus(g.times(t))
            &&& f.inner(g) < 1real ==> r.inner(f) > f.inner(g)
            &&& f.inner(g) < 1real && t > 0real ==> r.inner(g) > f.inner(g)
            &&& 2real * t == 1real ==> r.inner(f) == r.inner(g)
            &&& results[k].toi is Some ==> after->0.ccd.impact == results[k].toi
        }),
{
    lemma_only_result(slots, results, results.len(), k, results[k].handle);
    lemma_motion_joins_its_poses(
        v,
        rb.position,
        rb.next_position,
        rb.mprops.local_com,
        results[k].fraction,
    );
}

/// Bringing flags up to date changes nothing else of any body.
proof fn lemma_only_flags_change<R>(
    slots: Seq<SlotModel<R>>,
    active: Seq<RigidBodyHandle>,
    include_forces: bool,
    n: nat,
    h: RigidBodyHandle,
)
    ensures
        ({
            let after = flags_updated(slots, active, include_forces, n);
            match rigid_body::body_at(slots, h) {
                Some(rb) => rigid_body::body_at(after, h) matches Some(new) && new == (BodyModel {
                    ccd: RigidBodyCcd { ccd_active: new.ccd.ccd_active, ..rb.ccd },
                    ..rb
                }),
                None => rigid_body::body_at(after, h) is None,
            }
        }),
    decreases n,
{
    if n > 0 {
        lemma_only_flags_change(slots, active, include_forces, (n - 1) as nat, h);
        lemma_only_flags_change(slots, active, include_forces, (n - 1) as nat, active[n - 1]);
    }
}

/// The flag of a body that forces move says whether it is fast: by the estimate from forces and
/// velocities where that is asked for, else by that from its solved motion. Bodies that are not
/// among the active ones keep their flags.
pub proof fn lemma_flags_follow_the_estimates<R>(
    slots: Seq<SlotModel<R>>,
    active: Seq<RigidBodyHandle>,
    include_forces: bool,
    n: nat,
    h: RigidBodyHandle,
)
    requires
        n <= active.len(),
        rigid_body::body_at(slots, h) is Some,
    ensures
        ({
            let before = rigid_body::body_at(slots, h)->0;
            let after = rigid_body::body_at(flags_updated(slots, active, include_forces, n), h)->0;
            let named = exists|i: int| 0 <= i < n && #[trigger] active[i] == h;
            let moved = before.body_type == rigid_body::RigidBodyType::Dynamic;
            &&& named && moved && include_forces ==> after.ccd.ccd_active
                == before.ccd.fast_before_solve
            &&& named && moved && !include_forces ==> after.ccd.ccd_active
                == before.ccd.fast_after_solve
            &&& !named || !moved ==> after.ccd.ccd_active == before.ccd.ccd_active
        }),
    decreases n,
{
    if n > 0 {
        let m = (n - 1) as nat;
        lemma_flags_follow_the_estimates(slots, active, include_forces, m, h);
        lemma_only_flags_change(slots, active, include_forces, m, h);
        let last = active[n - 1];
        lemma_only_flags_change(slots, active, include_forces, m, last);
        if last != h && exists|i: int| 0 <= i < n && #[trigger] active[i] == h {
            let i = choose|i: int| 0 <= i < n && #[trigger] active[i] == h;
            assert(i < m);
        }
    }
}

} // verus!
