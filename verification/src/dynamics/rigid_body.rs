//! The state of rigid bodies that other parts of a simulation read and drive.
use vstd::prelude::*;
use crate::dynamics::force_containers;
use crate::dynamics::force_containers::{BodyForceContainers, ContainerState};
use crate::math::{AngVector, Pose, Vector};
use crate::scalar::Real;

verus! {

/// The name of a body in a [`RigidBodySet`]. A name is never given to a second body.
#[derive(Clone, Copy, Debug, PartialEq, Eq, Hash, Structural)]
pub struct RigidBodyHandle {
    /// Position in the set.
    pub index: u32,
    /// How many bodies held that position before.
    pub generation: u32,
}

/// How a body moves.
#[derive(Clone, Copy, Debug, PartialEq, Eq, Structural)]
pub enum RigidBodyType {
    /// Moved by forces.
    Dynamic,
    /// Never moved.
    Fixed,
    /// Moved to positions that the user sets.
    KinematicPositionBased,
    /// Moved with velocities that the user sets.
    KinematicVelocityBased,
}

/// The forces on a body.
#[derive(Clone, Copy, Debug)]
pub struct RigidBodyForces<R> {
    /// The sum that the solver applies.
    pub force: Vector<R>,
    /// The torque that the solver applies.
    pub torque: AngVector<R>,
    /// A force that the user set.
    pub user_force: Vector<R>,
    /// A torque that the user set.
    pub user_torque: AngVector<R>,
    /// How strongly gravity acts.
    pub gravity_scale: R,
}

/// The mass of a body as the solver sees it.
#[derive(Clone, Copy, Debug)]
pub struct RigidBodyMassProps<R> {
    /// Mass along each axis; zero along a locked one.
    pub effective_mass: Vector<R>,
    /// Centre of mass in world coordinates.
    pub world_com: Vector<R>,
    /// Centre of mass in the local frame of the body.
    pub local_com: Vector<R>,
}

/// What continuous collision detection knows about a body.
#[derive(Clone, Copy, Debug)]
pub struct RigidBodyCcd<R> {
    /// Whether the body is swept against moving bodies too.
    pub ccd_enabled: bool,
    /// Whether the body has to be swept in this step.
    pub ccd_active: bool,
    /// Whether forces and velocities alone would move the body further than its thickness.
    pub fast_before_solve: bool,
    /// Whether the solved motion moves the body further than its thickness.
    pub fast_after_solve: bool,
    /// Point and normal of the last impact.
    pub impact: Option<(Vector<R>, Vector<R>)>,
}

/// A rigid body.
#[derive(Clone, Debug)]
pub struct RigidBody<R> {
    /// How the body moves.
    pub body_type: RigidBodyType,
    /// Pose at the start of the step.
    pub position: Pose<R>,
    /// Pose at the end of the step.
    pub next_position: Pose<R>,
    /// Linear velocity.
    pub linvel: Vector<R>,
    /// Angular velocity.
    pub angvel: AngVector<R>,
    /// Forces.
    pub forces: RigidBodyForces<R>,
    /// Mass.
    pub mprops: RigidBodyMassProps<R>,
    /// Continuous collision detection.
    pub ccd: RigidBodyCcd<R>,
    /// Forces by kind.
    pub force_containers: BodyForceContainers<R>,
}

/// What a rigid body holds.
#[verifier::ext_equal]
pub ghost struct BodyModel<R> {
    /// How the body moves.
    pub body_type: RigidBodyType,
    /// Pose at the start of the step.
    pub position: Pose<R>,
    /// Pose at the end of the step.
    pub next_position: Pose<R>,
    /// Linear velocity.
    pub linvel: Vector<R>,
    /// Angular velocity.
    pub angvel: AngVector<R>,
    /// Forces.
    pub forces: RigidBodyForces<R>,
    /// Mass.
    pub mprops: RigidBodyMassProps<R>,
    /// Continuous collision detection.
    pub ccd: RigidBodyCcd<R>,
    /// Forces by kind.
    pub containers: Seq<ContainerState<R>>,
}

impl<R> View for RigidBody<R> {
    type V = BodyModel<R>;

    open spec fn view(&self) -> BodyModel<R> {
        BodyModel {
            body_type: self.body_type,
            position: self.position,
            next_position: self.next_position,
            linvel: self.linvel,
            angvel: self.angvel,
            forces: self.forces,
            mprops: self.mprops,
            ccd: self.ccd,
            containers: self.force_containers@,
        }
    }
}

impl<R: Real> BodyModel<R> {
    /// The velocity of the body's material at a world point.
    pub open spec fn velocity_at_point(self, point: Vector<R>) -> Vector<R> {
        self.linvel.add(self.angvel.cross(point.sub(self.mprops.world_com)))
    }
}

impl<R: Real> RigidBody<R> {
    /// A body of unit mass at rest, with the centre of mass at its origin.
    pub fn new(body_type: RigidBodyType, position: Pose<R>) -> (rb: RigidBody<R>)
        ensures
            rb@ == (BodyModel {
                body_type,
                position,
                next_position: position,
                linvel: Vector::<R>::spec_zero(),
                angvel: Vector::<R>::spec_zero(),
                forces: RigidBodyForces {
                    force: Vector::<R>::spec_zero(),
                    torque: Vector::<R>::spec_zero(),
                    user_force: Vector::<R>::spec_zero(),
                    user_torque: Vector::<R>::spec_zero(),
                    gravity_scale: R::spec_one(),
                },
                mprops: RigidBodyMassProps {
                    effective_mass: Vector::<R>::spec_new(
                        R::spec_one(),
                        R::spec_one(),
                        R::spec_one(),
                    ),
                    world_com: position.translation,
                    local_com: Vector::<R>::spec_zero(),
                },
                ccd: RigidBodyCcd {
                    ccd_enabled: false,
                    ccd_active: false,
                    fast_before_solve: false,
                    fast_after_solve: false,
                    impact: None,
                },
                containers: Seq::<ContainerState<R>>::empty(),
            }),
    {
        RigidBody {
            body_type,
            position,
            next_position: position,
            linvel: Vector::zero(),
            angvel: Vector::zero(),
            forces: RigidBodyForces {
                force: Vector::zero(),
                torque: Vector::zero(),
                user_force: Vector::zero(),
                user_torque: Vector::zero(),
                gravity_scale: R::one(),
            },
            mprops: RigidBodyMassProps {
                effective_mass: Vector::new(R::one(), R::one(), R::one()),
                world_com: position.translation,
                local_com: Vector::zero(),
            },
            ccd: RigidBodyCcd {
                ccd_enabled: false,
                ccd_active: false,
                fast_before_solve: false,
                fast_after_solve: false,
                impact: None,
            },
            force_containers: BodyForceContainers::new(),
        }
    }

    /// The velocity of the body's material at a world point.
    pub fn velocity_at_point(&self, point: Vector<R>) -> (v: Vector<R>)
        ensures
            v == self@.velocity_at_point(point),
    {
        self.linvel.add(self.angvel.cross(point.sub(self.mprops.world_com)))
    }

    pub open spec fn spec_is_dynamic(&self) -> bool {
        self.body_type == RigidBodyType::Dynamic
    }

    /// Whether the body is moved by forces.
    #[verifier::when_used_as_spec(spec_is_dynamic)]
    pub fn is_dynamic(&self) -> (b: bool)
        ensures
            b == self.spec_is_dynamic(),
    {
        self.body_type == RigidBodyType::Dynamic
    }
}

/// A place for one body.
#[derive(Clone, Debug)]
pub struct BodySlot<R> {
    /// How many bodies held the place before.
    pub generation: u32,
    /// The body, unless it was removed.
    pub body: Option<RigidBody<R>>,
}

/// What a place holds.
#[verifier::ext_equal]
pub ghost struct SlotModel<R> {
    /// How many bodies held the place before.
    pub generation: u32,
    /// The body, unless it was removed.
    pub body: Option<BodyModel<R>>,
}

impl<R> View for BodySlot<R> {
    type V = SlotModel<R>;

    open spec fn view(&self) -> SlotModel<R> {
        SlotModel {
            generation: self.generation,
            body: match self.body {
                Some(rb) => Some(rb@),
                None => None,
            },
        }
    }
}

/// The body that `h` names.
pub open spec fn body_at<R>(slots: Seq<SlotModel<R>>, h: RigidBodyHandle) -> Option<BodyModel<R>> {
    if h.index < slots.len() && slots[h.index as int].generation == h.generation {
        slots[h.index as int].body
    } else {
        None
    }
}

/// The places with the body that `h` names replaced.
pub open spec fn with_body<R>(
    slots: Seq<SlotModel<R>>,
    h: RigidBodyHandle,
    rb: BodyModel<R>,
) -> Seq<SlotModel<R>> {
    slots.update(h.index as int, SlotModel { generation: h.generation, body: Some(rb) })
}

/// The rigid bodies of a simulation by handle.
#[derive(Clone, Debug)]
pub struct RigidBodySet<R> {
    slots: Vec<BodySlot<R>>,
}

impl<R> View for RigidBodySet<R> {
    type V = Seq<SlotModel<R>>;

    closed spec fn view(&self) -> Seq<SlotModel<R>> {
        self.slots@.map_values(|s: BodySlot<R>| s@)
    }
}

impl<R: Real> RigidBodySet<R> {
    /// A set without bodies.
    pub fn new() -> (s: RigidBodySet<R>)
        ensures
            s@ == Seq::<SlotModel<R>>::empty(),
    {
        RigidBodySet { slots: Vec::new() }
    }

    /// Adds a body and names it.
    pub fn insert(&mut self, body: RigidBody<R>) -> (h: RigidBodyHandle)
        requires
            old(self)@.len() <= u32::MAX,
        ensures
            h.index == old(self)@.len(),
            h.generation == 0,
            final(self)@ == old(self)@.push(SlotModel { generation: 0, body: Some(body@) }),
    {
        let index: u32 = self.slots.len() as u32;
        self.slots.push(BodySlot { generation: 0, body: Some(body) });
        RigidBodyHandle { index, generation: 0 }
    }

    /// The number of places.
    pub fn len(&self) -> (n: usize)
        ensures
            n == self@.len(),
    {
        self.slots.len()
    }

    /// The body at a place, for changing it.
    pub(crate) fn place_mut(&mut self, i: usize) -> (r: Option<&mut RigidBody<R>>)
        requires
            i < old(self)@.len(),
        ensures
            match old(self)@[i as int].body {
                Some(rb) => r matches Some(m) && (*m)@ == rb && final(self)@ == old(self)@.update(
                    i as int,
                    SlotModel {
                        generation: old(self)@[i as int].generation,
                        body: Some((*final(m))@),
                    },
                ),
                None => r is None && final(self)@ == old(self)@,
            },
    {
        assert(self@[i as int] == self.slots@[i as int]@);
        self.slots[i].body.as_mut()
    }

    /// The body that `h` names, if it is there.
    pub fn get(&self, h: RigidBodyHandle) -> (r: Option<&RigidBody<R>>)
        ensures
            match body_at(self@, h) {
                Some(rb) => r matches Some(b) && b@ == rb && force_containers::kinds_distinct(
                    rb.containers,
                ),
                None => r is None,
            },
    {
        let i: usize = h.index as usize;
        if i < self.slots.len() && self.slots[i].generation == h.generation {
            match &self.slots[i].body {
                Some(rb) => {
                    proof {
                        use_type_invariant(&rb.force_containers);
                    }
                    Some(rb)
                },
                None => None,
            }
        } else {
            None
        }
    }

    /// The body that `h` names, for changing it.
    pub fn get_mut(&mut self, h: RigidBodyHandle) -> (r: Option<&mut RigidBody<R>>)
        ensures
            match body_at(old(self)@, h) {
                Some(rb) => r matches Some(m) && (*m)@ == rb && final(self)@ == with_body(
                    old(self)@,
                    h,
                    (*final(m))@,
                ),
                None => r is None && final(self)@ == old(self)@,
            },
    {
        let i: usize = h.index as usize;
        if i < self.slots.len() && self.slots[i].generation == h.generation {
            self.slots[i].body.as_mut()
        } else {
            None
        }
    }
}

} // verus!
