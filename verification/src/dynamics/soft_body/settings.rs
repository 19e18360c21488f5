//! Building a soft body's parameters: gravity, wind, pressure, contact, damping.
use vstd::prelude::*;
use crate::dynamics::rigid_body;
use crate::dynamics::rigid_body::{RigidBodyHandle, RigidBodySet};
use crate::dynamics::soft_body::model::{
    CohesionParams, DistanceConstraint, PlasticityParams, SelfCollisionParams, SoftBody,
    SoftParticle, SoftSolver, SoftState, Spring, Wind,
};
use crate::math::Vector;
use crate::scalar;
use crate::scalar::Real;

verus! {

/// Whether `x` is positive.
pub open spec fn positive<R: Real>(x: R) -> bool {
    R::zero().lt(x)
}

/// Whether `mu` is a share between none and all.
pub open spec fn is_share<R: Real>(mu: R) -> bool {
    mu.is_finite() && !mu.lt(R::zero()) && !R::one().lt(mu)
}

impl<R: Real> SoftState<R> {
    /// A body without particles.
    pub open spec fn empty(gravity: Vector<R>) -> SoftState<R> {
        SoftState {
            particles: Seq::empty(),
            springs: Seq::empty(),
            distance_constraints: Seq::empty(),
            tetrahedra: Seq::empty(),
            tetra_rest_volumes: Seq::empty(),
            triangles: Seq::empty(),
            solver: SoftSolver::MassSpring,
            gravity,
            sleeping: false,
            collide: false,
            particle_radius: R::decimal(1, 1),
            wind: None,
            pressure: None,
            damping: R::zero(),
            substeps: 1,
            tear_strain: None,
            plasticity: None,
            self_collision: None,
            cross_collision: None,
            volume_conservation: None,
            cohesion: None,
        }
    }
}

impl<R: Real> SoftBody<R> {
    /// A body without particles in the given gravity.
    pub fn new(gravity: Vector<R>) -> (body: SoftBody<R>)
        ensures
            body@ == SoftState::empty(gravity),
            body@.wf(),
    {
        SoftBody {
            particles: Vec::new(),
            springs: Vec::new(),
            distance_constraints: Vec::new(),
            tetrahedra: Vec::new(),
            tetra_rest_volumes: Vec::new(),
            triangles: Vec::new(),
            solver: SoftSolver::MassSpring,
            gravity,
            sleeping: false,
            collide: false,
            particle_radius: R::decimal(1, 1),
            wind: None,
            pressure: None,
            damping: R::zero(),
            substeps: 1,
            tear_strain: None,
            plasticity: None,
            self_collision: None,
            cross_collision: None,
            volume_conservation: None,
            cohesion: None,
        }
    }

    /// Adds a movable particle of unit mass and returns its position in the list.
    pub fn add_particle(&mut self, pos: Vector<R>) -> (index: usize)
        ensures
            index == old(self)@.particles.len(),
            final(self)@ == (SoftState {
                particles: old(self)@.particles.push(SoftParticle::spec_new(pos)),
                ..old(self)@
            }),
            old(self)@.wf() ==> final(self)@.wf(),
    {
        let index: usize = self.particles.len();
        self.particles.push(SoftParticle::new(pos));
        index
    }

    /// Adds a particle that cannot move and returns its position in the list.
    pub fn add_pinned(&mut self, pos: Vector<R>) -> (index: usize)
        ensures
            index == old(self)@.particles.len(),
            final(self)@ == (SoftState {
                particles: old(self)@.particles.push(SoftParticle::spec_pinned(pos)),
                ..old(self)@
            }),
            old(self)@.wf() ==> final(self)@.wf(),
    {
        let index: usize = self.particles.len();
        self.particles.push(SoftParticle::pinned(pos));
        index
    }

    /// Anchors a particle to a rigid body at a world point, which is kept in the local frame of
    /// the body. Fails, without effect, if the particle or the body is not there.
    pub fn attach_particle(
        &mut self,
        particle: usize,
        body: RigidBodyHandle,
        world_attach_point: Vector<R>,
        bodies: &RigidBodySet<R>,
    ) -> (attached: bool)
        ensures
            attached == (particle < old(self)@.particles.len() && rigid_body::body_at(
                bodies@,
                body,
            ) is Some),
            final(self)@ == (if attached {
                SoftState {
                    particles: old(self)@.particles.update(
                        particle as int,
                        SoftParticle {
                            bound_body: Some(body),
                            bound_local: rigid_body::body_at(
                                bodies@,
                                body,
                            )->0.position.inverse_transform_point(world_attach_point),
                            ..old(self)@.particles[particle as int]
                        },
                    ),
                    ..old(self)@
                }
            } else {
                old(self)@
            }),
    {
        match bodies.get(body) {
            Some(rb) => {
                let local = rb.position.inverse_transform_point(world_attach_point);
                if particle >= self.particles.len() {
                    return false;
                }
                self.particles[particle].bound_body = Some(body);
                self.particles[particle].bound_local = local;
                true
            },
            None => false,
        }
    }

    /// Releases a particle from the rigid body it is anchored to. Fails if there is no such
    /// particle.
    pub fn detach_particle(&mut self, particle: usize) -> (found: bool)
        ensures
            found == (particle < old(self)@.particles.len()),
            final(self)@ == (if found {
                SoftState {
                    particles: old(self)@.particles.update(
                        particle as int,
                        SoftParticle {
                            bound_body: None,
                            bound_local: Vector::<R>::spec_zero(),
                            ..old(self)@.particles[particle as int]
                        },
                    ),
                    ..old(self)@
                }
            } else {
                old(self)@
            }),
    {
        if particle >= self.particles.len() {
            return false;
        }
        self.particles[particle].bound_body = None;
        self.particles[particle].bound_local = Vector::zero();
        true
    }

    /// Sets a uniform wind.
    pub fn apply_wind(&mut self, accel: Vector<R>, drag: R)
        ensures
            final(self)@ == (SoftState { wind: Some(Wind { accel, drag }), ..old(self)@ }),
    {
        self.wind = Some(Wind { accel, drag });
    }

    /// Ends the wind.
    pub fn clear_wind(&mut self)
        ensures
            final(self)@ == (SoftState { wind: None, ..old(self)@ }),
    {
        self.wind = None;
    }

    /// Sets the pressure inside the body. A pressure that is not positive ends it.
    pub fn set_pressure(&mut self, pressure: R)
        ensures
            final(self)@ == (SoftState {
                pressure: if positive(pressure) {
                    Some(pressure)
                } else {
                    None
                },
                ..old(self)@
            }),
    {
        if R::zero().lt(pressure) {
            self.pressure = Some(pressure);
        } else {
            self.pressure = None;
        }
    }

    /// Ends the pressure inside the body.
    pub fn clear_pressure(&mut self)
        ensures
            final(self)@ == (SoftState { pressure: None, ..old(self)@ }),
    {
        self.pressure = None;
    }

    /// Lets the particles of this body repel each other, without friction. Refuses a
    /// radius that is not positive and a negative compliance.
    pub fn set_self_collision(&mut self, radius: R, stiffness: R) -> (accepted: bool)
        ensures
            accepted == (positive(radius) && !stiffness.lt(R::spec_zero())),
            final(self)@ == (if accepted {
                SoftState {
                    self_collision: Some(
                        SelfCollisionParams { radius, stiffness, friction: None },
                    ),
                    ..old(self)@
                }
            } else {
                old(self)@
            }),
    {
        if !R::zero().lt(radius) || stiffness.lt(R::zero()) {
            return false;
        }
        self.self_collision = Some(SelfCollisionParams { radius, stiffness, friction: None });
        true
    }

    /// Sets the friction of these contacts. Refuses what is not between zero and one, and
    /// refuses while the contacts are off.
    pub fn set_self_collision_friction(&mut self, mu: R) -> (accepted: bool)
        ensures
            accepted == (is_share(mu) && old(self)@.self_collision is Some),
            final(self)@ == (if accepted {
                SoftState {
                    self_collision: Some(
                        SelfCollisionParams { friction: Some(mu), ..old(self)@.self_collision->0 },
                    ),
                    ..old(self)@
                }
            } else {
                old(self)@
            }),
    {
        if !mu.is_finite() || mu.lt(R::zero()) || R::one().lt(mu) {
            return false;
        }
        match self.self_collision {
            Some(p) => {
                self.self_collision = Some(
                    SelfCollisionParams {
                        radius: p.radius,
                        stiffness: p.stiffness,
                        friction: Some(mu),
                    },
                );
                true
            },
            None => false,
        }
    }

    /// Ends these contacts.
    pub fn clear_self_collision(&mut self)
        ensures
            final(self)@ == (SoftState { self_collision: None, ..old(self)@ }),
    {
        self.self_collision = None;
    }

    /// Lets the particles of this body and of others that have it set repel each other, without
    /// friction. Refuses a radius that is not positive and a negative compliance.
    pub fn set_cross_collision(&mut self, radius: R, stiffness: R) -> (accepted: bool)
        ensures
            accepted == (positive(radius) && !stiffness.lt(R::spec_zero())),
            final(self)@ == (if accepted {
                SoftState {
                    cross_collision: Some(
                        SelfCollisionParams { radius, stiffness, friction: None },
                    ),
                    ..old(self)@
                }
            } else {
                old(self)@
            }),
    {
        if !R::zero().lt(radius) || stiffness.lt(R::zero()) {
            return false;
        }
        self.cross_collision = Some(SelfCollisionParams { radius, stiffness, friction: None });
        true
    }

    /// Sets the friction of these contacts. Refuses what is not between zero and one, and
    /// refuses while the contacts are off.
    pub fn set_cross_collision_friction(&mut self, mu: R) -> (accepted: bool)
        ensures
            accepted == (is_share(mu) && old(self)@.cross_collision is Some),
            final(self)@ == (if accepted {
                SoftState {
                    cross_collision: Some(
                        SelfCollisionParams { friction: Some(mu), ..old(self)@.cross_collision->0 },
                    ),
                    ..old(self)@
                }
            } else {
                old(self)@
            }),
    {
        if !mu.is_finite() || mu.lt(R::zero()) || R::one().lt(mu) {
            return false;
        }
        match self.cross_collision {
            Some(p) => {
                self.cross_collision = Some(
                    SelfCollisionParams {
                        radius: p.radius,
                        stiffness: p.stiffness,
                        friction: Some(mu),
                    },
                );
                true
            },
            None => false,
        }
    }

    /// Ends these contacts.
    pub fn clear_cross_collision(&mut self)
        ensures
            final(self)@ == (SoftState { cross_collision: None, ..old(self)@ }),
    {
        self.cross_collision = None;
    }

    /// Gives the volume elements a compliance of their own; zero makes them incompressible.
    /// Refuses a compliance that is negative or no ordinary number.
    pub fn set_volume_conservation(&mut self, compliance: R) -> (accepted: bool)
        ensures
            accepted == (compliance.is_finite() && !compliance.lt(R::spec_zero())),
            final(self)@ == (if accepted {
                SoftState { volume_conservation: Some(compliance), ..old(self)@ }
            } else {
                old(self)@
            }),
    {
        if !compliance.is_finite() || compliance.lt(R::zero()) {
            return false;
        }
        self.volume_conservation = Some(compliance);
        true
    }

    /// Lets the volume elements use the compliance of the solver.
    pub fn clear_volume_conservation(&mut self)
        ensures
            final(self)@ == (SoftState { volume_conservation: None, ..old(self)@ }),
    {
        self.volume_conservation = None;
    }

    /// Lets the body stick to others. Refuses a radius that is not positive, a negative
    /// compliance and a break distance that is not above the radius; an infinite break distance
    /// makes bonds permanent.
    pub fn set_cohesion(&mut self, radius: R, stiffness: R, break_distance: R) -> (accepted: bool)
        ensures
            accepted == (!radius.is_nan() && !stiffness.is_nan() && !break_distance.is_nan()
                && positive(radius) && !stiffness.lt(R::spec_zero()) && !break_distance.le(
                radius,
            )),
            final(self)@ == (if accepted {
                SoftState {
                    cohesion: Some(CohesionParams { radius, stiffness, break_distance }),
                    ..old(self)@
                }
            } else {
                old(self)@
            }),
    {
        if radius.is_nan() || stiffness.is_nan() || break_distance.is_nan()
            || !R::zero().lt(radius) || stiffness.lt(R::zero()) || break_distance.le(radius) {
            return false;
        }
        self.cohesion = Some(CohesionParams { radius, stiffness, break_distance });
        true
    }

    /// Ends the cohesion.
    pub fn clear_cohesion(&mut self)
        ensures
            final(self)@ == (SoftState { cohesion: None, ..old(self)@ }),
    {
        self.cohesion = None;
    }

    /// Sets the share of every velocity that a step removes. Refuses what is not in `[0, 1)`.
    pub fn set_damping(&mut self, d: R) -> (accepted: bool)
        ensures
            accepted == (d.is_finite() && !d.lt(R::spec_zero()) && !R::spec_one().le(d)),
            final(self)@ == (if accepted {
                SoftState { damping: d, ..old(self)@ }
            } else {
                old(self)@
            }),
    {
        if !d.is_finite() || d.lt(R::zero()) || R::one().le(d) {
            return false;
        }
        self.damping = d;
        true
    }

    /// Sets into how many equal parts a step is split. Refuses zero.
    pub fn set_substeps(&mut self, n: u32) -> (accepted: bool)
        ensures
            accepted == (n != 0),
            final(self)@ == (if accepted {
                SoftState { substeps: n, ..old(self)@ }
            } else {
                old(self)@
            }),
    {
        if n == 0 {
            return false;
        }
        self.substeps = n;
        true
    }

    /// Sets the strain beyond which an edge snaps. Any stretch snaps an edge if it is zero.
    pub fn set_tear_strain(&mut self, strain: Option<R>)
        ensures
            final(self)@ == (SoftState { tear_strain: strain, ..old(self)@ }),
    {
        self.tear_strain = strain;
    }

    /// Sets when edges keep a deformation. A negative yield strain counts as zero, and the creep
    /// is limited to `[0, 1]`.
    pub fn set_plasticity(&mut self, params: Option<PlasticityParams<R>>)
        ensures
            final(self)@ == (SoftState {
                plasticity: match params {
                    Some(p) => Some(
                        PlasticityParams {
                            yield_strain: p.yield_strain.max(R::zero()),
                            creep: scalar::spec_clamp(p.creep, R::zero(), R::one()),
                        },
                    ),
                    None => None,
                },
                ..old(self)@
            }),
    {
        self.plasticity = match params {
            Some(p) => Some(
                PlasticityParams {
                    yield_strain: p.yield_strain.max(R::zero()),
                    creep: scalar::clamp(p.creep, R::zero(), R::one()),
                },
            ),
            None => None,
        };
    }

    /// Selects the position solver.
    pub fn configure_xpbd(&mut self, iterations: u32, compliance: R)
        ensures
            final(self)@ == (SoftState {
                solver: SoftSolver::Xpbd { iterations, compliance },
                ..old(self)@
            }),
    {
        self.solver = SoftSolver::Xpbd { iterations, compliance };
    }

    /// Sets the stiffness of a spring. Refuses a spring that is not there and a stiffness that
    /// is negative or no ordinary number.
    pub fn set_spring_stiffness(&mut self, index: usize, stiffness: R) -> (accepted: bool)
        ensures
            accepted == (!stiffness.lt(R::spec_zero()) && stiffness.is_finite() && index
                < old(self)@.springs.len()),
            final(self)@ == (if accepted {
                SoftState {
                    springs: old(self)@.springs.update(
                        index as int,
                        Spring { stiffness, ..old(self)@.springs[index as int] },
                    ),
                    ..old(self)@
                }
            } else {
                old(self)@
            }),
    {
        if stiffness.lt(R::zero()) || !stiffness.is_finite() {
            return false;
        }
        if index >= self.springs.len() {
            return false;
        }
        self.springs[index].stiffness = stiffness;
        true
    }

    /// Sets how far an edge gives, in both directions. Refuses an edge that is not there and
    /// a compliance that is negative or no ordinary number.
    pub fn set_distance_constraint_compliance(
        &mut self,
        index: usize,
        compliance: R,
    ) -> (accepted: bool)
        ensures
            accepted == (!compliance.lt(R::spec_zero()) && compliance.is_finite() && index
                < old(self)@.distance_constraints.len()),
            final(self)@ == (if accepted {
                SoftState {
                    distance_constraints: old(self)@.distance_constraints.update(
                        index as int,
                        DistanceConstraint {
                            compliance,
                            compression: compliance,
                            ..old(self)@.distance_constraints[index as int]
                        },
                    ),
                    ..old(self)@
                }
            } else {
                old(self)@
            }),
    {
        if compliance.lt(R::zero()) || !compliance.is_finite() {
            return false;
        }
        if index >= self.distance_constraints.len() {
            return false;
        }
        self.distance_constraints[index].compliance = compliance;
        self.distance_constraints[index].compression = compliance;
        true
    }

    /// Sets how far an edge gives when it is shorter than its rest length. Refuses an edge that is
    /// not there and a compliance that is negative or no ordinary number.
    pub fn set_distance_constraint_compression(
        &mut self,
        index: usize,
        compression: R,
    ) -> (accepted: bool)
        ensures
            accepted == (!compression.lt(R::spec_zero()) && compression.is_finite() && index
                < old(self)@.distance_constraints.len()),
            final(self)@ == (if accepted {
                SoftState {
                    distance_constraints: old(self)@.distance_constraints.update(
                        index as int,
                        DistanceConstraint {
                            compression,
                            ..old(self)@.distance_constraints[index as int]
                        },
                    ),
                    ..old(self)@
                }
            } else {
                old(self)@
            }),
    {
        if compression.lt(R::zero()) || !compression.is_finite() {
            return false;
        }
        if index >= self.distance_constraints.len() {
            return false;
        }
        self.distance_constraints[index].compression = compression;
        true
    }
}

} // verus!
