//! All soft bodies of a simulation.
use vstd::prelude::*;
use crate::dynamics::force_containers;
use crate::dynamics::force_containers::{ForceEntry, ForceKind, Persistence};
use crate::dynamics::rigid_body;
use crate::dynamics::rigid_body::{BodyModel, RigidBodySet, SlotModel};
use crate::dynamics::soft_body::model::{
    SoftBody, SoftBodyId, SoftParticle, SoftState, SOFT_SPRING_CUSTOM_ID,
};
use crate::math::Vector;
use crate::scalar::Real;

verus! {

/// The soft bodies of a simulation by id. The id of a removed body is not given away again.
#[derive(Clone, Debug)]
pub struct SoftBodySet<R> {
    bodies: Vec<Option<SoftBody<R>>>,
}

/// What a place of the set holds.
pub open spec fn place_state<R>(b: Option<SoftBody<R>>) -> Option<SoftState<R>> {
    match b {
        Some(body) => Some(body@),
        None => None,
    }
}

impl<R> View for SoftBodySet<R> {
    type V = Seq<Option<SoftState<R>>>;

    closed spec fn view(&self) -> Seq<Option<SoftState<R>>> {
        self.bodies@.map_values(|b: Option<SoftBody<R>>| place_state(b))
    }
}

/// Every body is consistent.
pub open spec fn all_wf<R>(s: Seq<Option<SoftState<R>>>) -> bool {
    forall|i: int| 0 <= i < s.len() ==> ((#[trigger] s[i]) matches Some(b) ==> b.wf())
}

/// Every body can be stepped.
pub open spec fn all_can_step<R: Real>(s: Seq<Option<SoftState<R>>>) -> bool {
    forall|i: int| 0 <= i < s.len() ==> ((#[trigger] s[i]) matches Some(b) ==> b.can_step())
}

/// The body that an id names, if it was not removed.
pub open spec fn soft_at<R>(s: Seq<Option<SoftState<R>>>, id: SoftBodyId) -> Option<SoftState<R>> {
    if id.0 < s.len() {
        s[id.0 as int]
    } else {
        None
    }
}

/// How many of the first `n` bodies are there.
pub open spec fn live_count<R>(s: Seq<Option<SoftState<R>>>, n: nat) -> nat
    decreases n,
{
    if n == 0 {
        0
    } else if s[n - 1] is Some {
        live_count(s, (n - 1) as nat) + 1
    } else {
        live_count(s, (n - 1) as nat)
    }
}

/// The ids of those of the first `n` bodies that are there, ascending.
pub open spec fn live_ids<R>(s: Seq<Option<SoftState<R>>>, n: nat) -> Seq<u32>
    decreases n,
{
    if n == 0 {
        Seq::empty()
    } else if s[n - 1] is Some {
        live_ids(s, (n - 1) as nat).push((n - 1) as u32)
    } else {
        live_ids(s, (n - 1) as nat)
    }
}

/// A particle taken along by the rigid body that it is anchored to.
pub open spec fn carried<R: Real>(p: SoftParticle<R>, slots: Seq<SlotModel<R>>) -> SoftParticle<R> {
    match p.bound_body {
        Some(h) => match rigid_body::body_at(slots, h) {
            Some(rb) => {
                let world = rb.position.transform_point(p.bound_local);
                SoftParticle { pos: world, vel: rb.velocity_at_point(world), ..p }
            },
            None => p,
        },
        None => p,
    }
}

/// A soft body with its anchored particles taken along.
pub open spec fn body_carried<R: Real>(s: SoftState<R>, slots: Seq<SlotModel<R>>) -> SoftState<R> {
    if s.sleeping {
        s
    } else {
        SoftState {
            particles: s.particles.map_values(|p: SoftParticle<R>| carried(p, slots)),
            ..s
        }
    }
}

/// The rigid bodies with the spring forces of the first `n` particles taken off them.
pub open spec fn released<R: Real>(
    slots: Seq<SlotModel<R>>,
    ps: Seq<SoftParticle<R>>,
    n: nat,
) -> Seq<SlotModel<R>>
    decreases n,
{
    if n == 0 {
        slots
    } else {
        let before = released(slots, ps, (n - 1) as nat);
        match ps[n - 1].bound_body {
            Some(h) => match rigid_body::body_at(before, h) {
                Some(rb) => rigid_body::with_body(
                    before,
                    h,
                    BodyModel {
                        containers: force_containers::without_kind(
                            rb.containers,
                            ForceKind::Custom(SOFT_SPRING_CUSTOM_ID),
                        ),
                        ..rb
                    },
                ),
                None => before,
            },
            None => before,
        }
    }
}

/// The rigid bodies with the spring forces of the first `n` particles put on them: each as an
/// entry of its own, at the place of the particle.
pub open spec fn loaded<R: Real>(
    slots: Seq<SlotModel<R>>,
    ps: Seq<SoftParticle<R>>,
    forces: Seq<Vector<R>>,
    n: nat,
) -> Seq<SlotModel<R>>
    decreases n,
{
    if n == 0 {
        slots
    } else {
        let before = loaded(slots, ps, forces, (n - 1) as nat);
        match ps[n - 1].bound_body {
            Some(h) => match rigid_body::body_at(before, h) {
                Some(rb) => rigid_body::with_body(
                    before,
                    h,
                    BodyModel {
                        containers: force_containers::with_entry(
                            rb.containers,
                            ForceKind::Custom(SOFT_SPRING_CUSTOM_ID),
                            Persistence::Persistent,
                            ForceEntry {
                                id: n as u64,
                                force: forces[n - 1],
                                torque: Vector::zero(),
                                point: Some(ps[n - 1].pos),
                            },
                        ),
                        ..rb
                    },
                ),
                None => before,
            },
            None => before,
        }
    }
}

/// The rigid bodies with the spring forces of the first `n` soft bodies taken off them.
pub open spec fn all_released<R: Real>(
    slots: Seq<SlotModel<R>>,
    s: Seq<Option<SoftState<R>>>,
    n: nat,
) -> Seq<SlotModel<R>>
    decreases n,
{
    if n == 0 {
        slots
    } else {
        let before = all_released(slots, s, (n - 1) as nat);
        match s[n - 1] {
            Some(b) => if b.sleeping {
                before
            } else {
                released(before, b.particles, b.particles.len())
            },
            None => before,
        }
    }
}

/// The rigid bodies with the spring forces of the first `n` soft bodies put on them.
pub open spec fn all_loaded<R: Real>(
    slots: Seq<SlotModel<R>>,
    s: Seq<Option<SoftState<R>>>,
    n: nat,
) -> Seq<SlotModel<R>>
    decreases n,
{
    if n == 0 {
        slots
    } else {
        let before = all_loaded(slots, s, (n - 1) as nat);
        match s[n - 1] {
            Some(b) => if b.sleeping {
                before
            } else {
                loaded(before, b.particles, b.spring_forces(), b.particles.len())
            },
            None => before,
        }
    }
}

impl<R: Real> SoftBodySet<R> {
    /// A set without bodies.
    pub fn new() -> (set: SoftBodySet<R>)
        ensures
            set@ == Seq::<Option<SoftState<R>>>::empty(),
    {
        SoftBodySet { bodies: Vec::new() }
    }

    /// Adds a body and returns its id.
    pub fn insert(&mut self, body: SoftBody<R>) -> (id: SoftBodyId)
        requires
            old(self)@.len() <= u32::MAX,
        ensures
            id.0 == old(self)@.len(),
            final(self)@ == old(self)@.push(Some(body@)),
    {
        let id = SoftBodyId(self.bodies.len() as u32);
        self.bodies.push(Some(body));
        id
    }

    /// The number of ids given away.
    pub fn len(&self) -> (n: usize)
        ensures
            n == self@.len(),
    {
        self.bodies.len()
    }

    /// The number of bodies that are there.
    pub fn count(&self) -> (n: usize)
        ensures
            n == live_count(self@, self@.len()),
    {
        let mut live: usize = 0;
        let n: usize = self.bodies.len();
        for i in 0..n
            invariant
                n == self@.len(),
                n == self.bodies@.len(),
                live <= i,
                live == live_count(self@, i as nat),
        {
            assert(self@[i as int] == place_state(self.bodies@[i as int]));
            if self.bodies[i].is_some() {
                live = live + 1;
            }
        }
        live
    }

    /// Whether no body is there.
    pub fn is_empty(&self) -> (b: bool)
        ensures
            b == (live_count(self@, self@.len()) == 0),
    {
        self.count() == 0
    }

    /// Removes a body; tells whether it was there. Other ids stay valid.
    pub fn remove(&mut self, id: SoftBodyId) -> (removed: bool)
        ensures
            removed == (soft_at(old(self)@, id) is Some),
            final(self)@ == (if removed {
                old(self)@.update(id.0 as int, None)
            } else {
                old(self)@
            }),
    {
        let i: usize = id.0 as usize;
        if i >= self.bodies.len() {
            return false;
        }
        assert(self@[i as int] == place_state(self.bodies@[i as int]));
        if self.bodies[i].is_some() {
            self.bodies[i] = None;
            assert(self@ =~= old(self)@.update(i as int, None));
            true
        } else {
            false
        }
    }

    /// The body that an id names.
    pub fn get(&self, id: SoftBodyId) -> (r: Option<&SoftBody<R>>)
        ensures
            match soft_at(self@, id) {
                Some(b) => r matches Some(x) && x@ == b,
                None => r is None,
            },
    {
        let i: usize = id.0 as usize;
        if i < self.bodies.len() {
            assert(self@[i as int] == place_state(self.bodies@[i as int]));
            match &self.bodies[i] {
                Some(b) => Some(b),
                None => None,
            }
        } else {
            None
        }
    }

    fn place_mut(&mut self, i: usize) -> (r: Option<&mut SoftBody<R>>)
        requires
            i < old(self)@.len(),
        ensures
            match old(self)@[i as int] {
                Some(b) => r matches Some(x) && (*x)@ == b && final(self)@ == old(self)@.update(
                    i as int,
                    Some((*final(x))@),
                ),
                None => r is None && final(self)@ == old(self)@,
            },
    {
        assert(self@[i as int] == place_state(self.bodies@[i as int]));
        self.bodies[i].as_mut()
    }

    /// The body that an id names, for changing it.
    pub fn get_mut(&mut self, id: SoftBodyId) -> (r: Option<&mut SoftBody<R>>)
        ensures
            match soft_at(old(self)@, id) {
                Some(b) => r matches Some(x) && (*x)@ == b && final(self)@ == old(self)@.update(
                    id.0 as int,
                    Some((*final(x))@),
                ),
                None => r is None && final(self)@ == old(self)@,
            },
    {
        let i: usize = id.0 as usize;
        if i < self.bodies.len() {
            self.place_mut(i)
        } else {
            None
        }
    }

    /// The bodies that are there with their ids, in ascending order of the ids.
    pub fn iter(&self) -> (out: Vec<(SoftBodyId, &SoftBody<R>)>)
        requires
            self@.len() <= u32::MAX + 1,
        ensures
            out@.len() == live_ids(self@, self@.len()).len(),
            forall|k: int|
                0 <= k < out@.len() ==> {
                    &&& (#[trigger] out@[k]).0.0 == live_ids(self@, self@.len())[k]
                    &&& soft_at(self@, out@[k].0) == Some(out@[k].1@)
                },
    {
        let mut out: Vec<(SoftBodyId, &SoftBody<R>)> = Vec::new();
        let n: usize = self.bodies.len();
        for i in 0..n
            invariant
                n == self@.len(),
                n == self.bodies@.len(),
                n <= u32::MAX + 1,
                out@.len() == live_ids(self@, i as nat).len(),
                forall|k: int|
                    0 <= k < out@.len() ==> {
                        &&& (#[trigger] out@[k]).0.0 == live_ids(self@, i as nat)[k]
                        &&& soft_at(self@, out@[k].0) == Some(out@[k].1@)
                    },
        {
            assert(self@[i as int] == place_state(self.bodies@[i as int]));
            if let Some(b) = &self.bodies[i] {
                out.push((SoftBodyId(i as u32), b));
            }
        }
        out
    }

    /// Two different bodies at once, for changing both. Gives neither if one is not there or the
    /// ids are equal.
    pub fn get2_mut(&mut self, a: SoftBodyId, b: SoftBodyId) -> (r: (
        Option<&mut SoftBody<R>>,
        Option<&mut SoftBody<R>>,
    ))
        ensures
            match (soft_at(old(self)@, a), soft_at(old(self)@, b)) {
                (Some(sa), Some(sb)) => if a == b {
                    r.0 is None && r.1 is None && final(self)@ == old(self)@
                } else {
                    &&& r.0 matches Some(x)
                    &&& r.1 matches Some(y)
                    &&& (*x)@ == sa
                    &&& (*y)@ == sb
                    &&& final(self)@ == old(self)@.update(
                        a.0 as int,
                        Some((*final(x))@),
                    ).update(b.0 as int, Some((*final(y))@))
                },
                _ => r.0 is None && r.1 is None && final(self)@ == old(self)@,
            },
    {
        let n: usize = self.bodies.len();
        let ia: usize = a.0 as usize;
        let ib: usize = b.0 as usize;
        if ia == ib || ia >= n || ib >= n {
            return (None, None);
        }
        assert(self@[ia as int] == place_state(self.bodies@[ia as int]));
        assert(self@[ib as int] == place_state(self.bodies@[ib as int]));
        if self.bodies[ia].is_none() || self.bodies[ib].is_none() {
            return (None, None);
        }
        if ia < ib {
            let (left, right) = self.bodies.as_mut_slice().split_at_mut(ib);
            (left[ia].as_mut(), right[0].as_mut())
        } else {
            let (left, right) = self.bodies.as_mut_slice().split_at_mut(ia);
            (right[0].as_mut(), left[ib].as_mut())
        }
    }
}

impl<R: Real> Default for SoftBodySet<R> {
    fn default() -> (set: SoftBodySet<R>)
        ensures
            set@ == Seq::<Option<SoftState<R>>>::empty(),
    {
        SoftBodySet::new()
    }
}

/// What a place holds after a step.
pub open spec fn place_stepped<R: Real>(b: Option<SoftState<R>>, dt: R) -> Option<SoftState<R>> {
    match b {
        Some(s) => Some(s.stepped(dt)),
        None => None,
    }
}

/// What a place holds after its anchored particles were taken along.
pub open spec fn place_carried<R: Real>(
    b: Option<SoftState<R>>,
    slots: Seq<SlotModel<R>>,
) -> Option<SoftState<R>> {
    match b {
        Some(s) => Some(body_carried(s, slots)),
        None => None,
    }
}

fn carry_body<R: Real>(body: &mut SoftBody<R>, bodies: &RigidBodySet<R>)
    ensures
        final(body)@ == body_carried(old(body)@, bodies@),
{
    if body.sleeping {
        return;
    }
    let ghost before = body@;
    let n: usize = body.particles.len();
    for i in 0..n
        invariant
            n == body.particles@.len(),
            n == before.particles.len(),
            body@ == (SoftState { particles: body.particles@, ..before }),
            forall|k: int|
                0 <= k < i ==> #[trigger] body.particles@[k] == carried(
                    before.particles[k],
                    bodies@,
                ),
            forall|k: int| i <= k < n ==> #[trigger] body.particles@[k] == before.particles[k],
    {
        let p = body.particles[i];
        if let Some(h) = p.bound_body {
            if let Some(rb) = bodies.get(h) {
                let world = rb.position.transform_point(p.bound_local);
                body.particles[i].pos = world;
                body.particles[i].vel = rb.velocity_at_point(world);
            }
        }
    }
    assert(body.particles@ =~= before.particles.map_values(
        |p: SoftParticle<R>| carried(p, bodies@),
    ));
}

fn release_body<R: Real>(body: &SoftBody<R>, bodies: &mut RigidBodySet<R>)
    ensures
        final(bodies)@ == released(old(bodies)@, body@.particles, body@.particles.len()),
{
    let n: usize = body.particles.len();
    for i in 0..n
        invariant
            n == body.particles@.len(),
            bodies@ == released(old(bodies)@, body@.particles, i as nat),
    {
        if let Some(h) = body.particles[i].bound_body {
            if let Some(rb) = bodies.get_mut(h) {
                rb.force_containers.remove(ForceKind::Custom(SOFT_SPRING_CUSTOM_ID));
            }
        }
    }
}

fn load_body<R: Real>(body: &SoftBody<R>, bodies: &mut RigidBodySet<R>)
    ensures
        final(bodies)@ == loaded(
            old(bodies)@,
            body@.particles,
            body@.spring_forces(),
            body@.particles.len(),
        ),
{
    let forces = body.spring_damping_forces();
    let n: usize = body.particles.len();
    for i in 0..n
        invariant
            n == body.particles@.len(),
            n == forces@.len(),
            forces@ == body@.spring_forces(),
            bodies@ == loaded(old(bodies)@, body@.particles, forces@, i as nat),
    {
        let p = body.particles[i];
        if let Some(h) = p.bound_body {
            if let Some(rb) = bodies.get_mut(h) {
                rb.force_containers.push_entry(
                    ForceKind::Custom(SOFT_SPRING_CUSTOM_ID),
                    Persistence::Persistent,
                    ForceEntry {
                        id: i as u64 + 1,
                        force: forces[i],
                        torque: Vector::zero(),
                        point: Some(p.pos),
                    },
                );
            }
        }
    }
}

impl<R: Real> SoftBodySet<R> {
    /// Advances every body by `dt`. Sleeping bodies stay as they are.
    pub fn step(&mut self, dt: R)
        requires
            all_can_step(old(self)@),
        ensures
            final(self)@ == old(self)@.map_values(
                |b: Option<SoftState<R>>| place_stepped(b, dt),
            ),
            all_wf(old(self)@) ==> all_wf(final(self)@),
    {
        let n: usize = self.bodies.len();
        let ghost before = self@;
        for i in 0..n
            invariant
                n == self@.len(),
                n == before.len(),
                all_can_step(before),
                all_wf(before) ==> all_wf(self@),
                forall|k: int| 0 <= k < i ==> #[trigger] self@[k] == place_stepped(before[k], dt),
                forall|k: int| i <= k < n ==> #[trigger] self@[k] == before[k],
        {
            assert(self@[i as int] == before[i as int]);
            if let Some(b) = self.place_mut(i) {
                b.step(dt);
            }
        }
        assert(self@ =~= before.map_values(|b: Option<SoftState<R>>| place_stepped(b, dt)));
    }

    /// Puts a body to sleep; tells whether it was there.
    pub fn sleep(&mut self, id: SoftBodyId) -> (found: bool)
        ensures
            match soft_at(old(self)@, id) {
                Some(b) => found && final(self)@ == old(self)@.update(
                    id.0 as int,
                    Some(SoftState { sleeping: true, ..b }),
                ),
                None => !found && final(self)@ == old(self)@,
            },
    {
        match self.get_mut(id) {
            Some(b) => {
                b.sleeping = true;
                true
            },
            None => false,
        }
    }

    /// Wakes a body; tells whether it was there.
    pub fn wake(&mut self, id: SoftBodyId) -> (found: bool)
        ensures
            match soft_at(old(self)@, id) {
                Some(b) => found && final(self)@ == old(self)@.update(
                    id.0 as int,
                    Some(SoftState { sleeping: false, ..b }),
                ),
                None => !found && final(self)@ == old(self)@,
            },
    {
        match self.get_mut(id) {
            Some(b) => {
                b.sleeping = false;
                true
            },
            None => false,
        }
    }

    /// Whether a body is there and asleep.
    pub fn is_sleeping(&self, id: SoftBodyId) -> (b: bool)
        ensures
            b == (soft_at(self@, id) matches Some(s) && s.sleeping),
    {
        match self.get(id) {
            Some(b) => b.sleeping,
            None => false,
        }
    }

    /// Takes the anchored particles of every body that is awake along with their rigid bodies.
    pub fn follow_rigid_bodies(&mut self, bodies: &RigidBodySet<R>)
        ensures
            final(self)@ == old(self)@.map_values(
                |b: Option<SoftState<R>>| place_carried(b, bodies@),
            ),
    {
        let n: usize = self.bodies.len();
        let ghost before = self@;
        for i in 0..n
            invariant
                n == self@.len(),
                n == before.len(),
                forall|k: int|
                    0 <= k < i ==> #[trigger] self@[k] == place_carried(before[k], bodies@),
                forall|k: int| i <= k < n ==> #[trigger] self@[k] == before[k],
        {
            assert(self@[i as int] == before[i as int]);
            if let Some(b) = self.place_mut(i) {
                carry_body(b, bodies);
            }
        }
        assert(self@ =~= before.map_values(
            |b: Option<SoftState<R>>| place_carried(b, bodies@),
        ));
    }

    /// Puts the spring force on every anchored particle onto the rigid body that it is anchored
    /// to, in a persistent container of its own kind.
    ///
    /// The containers of the rigid bodies concerned are emptied first, so that they hold exactly
    /// the forces of this call. Sleeping bodies are left out.
    pub fn write_spring_forces(&self, bodies: &mut RigidBodySet<R>)
        ensures
            final(bodies)@ == all_loaded(
                all_released(old(bodies)@, self@, self@.len()),
                self@,
                self@.len(),
            ),
    {
        let n: usize = self.bodies.len();
        for i in 0..n
            invariant
                n == self@.len(),
                n == self.bodies@.len(),
                bodies@ == all_released(old(bodies)@, self@, i as nat),
        {
            assert(self@[i as int] == place_state(self.bodies@[i as int]));
            if let Some(b) = &self.bodies[i] {
                if !b.sleeping {
                    release_body(b, bodies);
                }
            }
        }
        let ghost cleared = bodies@;
        for i in 0..n
            invariant
                n == self@.len(),
                n == self.bodies@.len(),
                bodies@ == all_loaded(cleared, self@, i as nat),
        {
            assert(self@[i as int] == place_state(self.bodies@[i as int]));
            if let Some(b) = &self.bodies[i] {
                if !b.sleeping {
                    load_body(b, bodies);
                }
            }
        }
    }
}

} // verus!
