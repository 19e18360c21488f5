//! What a soft body is made of.
use vstd::prelude::*;
use crate::dynamics::rigid_body::RigidBodyHandle;
use crate::math::Vector;
use crate::scalar::Real;

verus! {

/// The number of the custom force kind under which soft bodies report their spring forces.
pub const SOFT_SPRING_CUSTOM_ID: u32 = 0x5_042;

/// The name of a [`SoftBody`] in a set.
#[derive(Copy, Clone, Debug, PartialEq, Eq, Hash, Structural)]
pub struct SoftBodyId(pub u32);

/// A point mass.
#[derive(Clone, Copy, Debug)]
pub struct SoftParticle<R> {
    /// Position in world coordinates.
    pub pos: Vector<R>,
    /// Velocity in world coordinates.
    pub vel: Vector<R>,
    /// Force of the current substep.
    pub force: Vector<R>,
    /// Reciprocal of the mass; zero for a particle that cannot move.
    pub inv_mass: R,
    /// The rigid body that the particle is anchored to. Such a particle is moved by that body
    /// alone, and its spring force acts on that body.
    pub bound_body: Option<RigidBodyHandle>,
    /// The anchor in the local frame of that body.
    pub bound_local: Vector<R>,
}

impl<R: Real> SoftParticle<R> {
    pub open spec fn spec_new(pos: Vector<R>) -> SoftParticle<R> {
        SoftParticle {
            pos,
            vel: Vector::zero(),
            force: Vector::zero(),
            inv_mass: R::one(),
            bound_body: None,
            bound_local: Vector::zero(),
        }
    }

    /// A movable particle of unit mass at rest.
    #[verifier::when_used_as_spec(spec_new)]
    pub fn new(pos: Vector<R>) -> (p: SoftParticle<R>)
        ensures
            p == Self::spec_new(pos),
    {
        SoftParticle {
            pos,
            vel: Vector::zero(),
            force: Vector::zero(),
            inv_mass: R::one(),
            bound_body: None,
            bound_local: Vector::zero(),
        }
    }

    pub open spec fn spec_pinned(pos: Vector<R>) -> SoftParticle<R> {
        SoftParticle { inv_mass: R::zero(), ..Self::spec_new(pos) }
    }

    /// A particle that cannot move.
    #[verifier::when_used_as_spec(spec_pinned)]
    pub fn pinned(pos: Vector<R>) -> (p: SoftParticle<R>)
        ensures
            p == Self::spec_pinned(pos),
    {
        let mut p = SoftParticle::new(pos);
        p.inv_mass = R::zero();
        p
    }

    pub open spec fn spec_is_pinned(self) -> bool {
        self.inv_mass.equals(R::zero())
    }

    /// Whether the particle cannot move.
    #[verifier::when_used_as_spec(spec_is_pinned)]
    pub fn is_pinned(self) -> (b: bool)
        ensures
            b == self.spec_is_pinned(),
    {
        self.inv_mass.equals(R::zero())
    }

    pub open spec fn spec_mass(&self) -> R {
        if self.inv_mass.equals(R::zero()) {
            R::zero()
        } else {
            R::one().div(self.inv_mass)
        }
    }

    /// The mass; zero for a particle that cannot move.
    #[verifier::when_used_as_spec(spec_mass)]
    pub fn mass(&self) -> (m: R)
        ensures
            m == self.spec_mass(),
    {
        if self.inv_mass.equals(R::zero()) {
            R::zero()
        } else {
            R::one().div(self.inv_mass)
        }
    }

    pub open spec fn spec_weight(self) -> R {
        if self.bound_body is Some {
            R::zero()
        } else {
            self.inv_mass
        }
    }

    /// How readily the solver moves the particle: its reciprocal mass, or zero for one that is
    /// anchored to a rigid body.
    #[verifier::when_used_as_spec(spec_weight)]
    pub fn weight(self) -> (w: R)
        ensures
            w == self.spec_weight(),
    {
        if self.bound_body.is_some() {
            R::zero()
        } else {
            self.inv_mass
        }
    }

    pub open spec fn spec_is_free(self) -> bool {
        !self.weight().equals(R::zero())
    }

    /// Whether the solver moves the particle: it is neither pinned nor anchored.
    #[verifier::when_used_as_spec(spec_is_free)]
    pub fn is_free(self) -> (b: bool)
        ensures
            b == self.spec_is_free(),
    {
        !self.weight().equals(R::zero())
    }
}

/// A spring between two particles, damped along its axis.
#[derive(Clone, Copy, Debug)]
pub struct Spring<R> {
    /// First end.
    pub a: usize,
    /// Second end.
    pub b: usize,
    /// Length at which the spring exerts no force.
    pub rest_length: R,
    /// Force per unit of elongation.
    pub stiffness: R,
    /// Force per unit of elongation rate.
    pub damping: R,
}

/// A length that the position solver holds between two particles.
#[derive(Clone, Copy, Debug)]
pub struct DistanceConstraint<R> {
    /// First end.
    pub a: usize,
    /// Second end.
    pub b: usize,
    /// The length to hold.
    pub rest: R,
    /// How far the edge gives when it is longer than its rest length; zero is rigid.
    pub compliance: R,
    /// How far the edge gives when it is shorter than its rest length; zero is rigid.
    pub compression: R,
}

/// How a soft body is advanced.
#[derive(Clone, Copy, Debug, Default)]
pub enum SoftSolver<R> {
    /// Spring forces and a semi-implicit integrator.
    #[default]
    MassSpring,
    /// Position constraints, projected a fixed number of times.
    Xpbd {
        /// How often every constraint is projected per substep.
        iterations: u32,
        /// Compliance of constraints that have none of their own.
        compliance: R,
    },
}

/// A uniform wind.
#[derive(Clone, Copy, Debug)]
pub struct Wind<R> {
    /// Acceleration of every movable particle.
    pub accel: Vector<R>,
    /// Deceleration per unit of velocity.
    pub drag: R,
}

/// When and how far an edge keeps a deformation.
#[derive(Clone, Copy, Debug)]
pub struct PlasticityParams<R> {
    /// The strain up to which an edge springs back.
    pub yield_strain: R,
    /// The share of the elongation that becomes permanent in a step.
    pub creep: R,
}

/// How particles of soft bodies repel each other.
#[derive(Clone, Copy, Debug)]
pub struct SelfCollisionParams<R> {
    /// Radius of the sphere around a particle.
    pub radius: R,
    /// Compliance of the repulsion; zero is hard.
    pub stiffness: R,
    /// The share of the tangential velocity that a contact removes.
    pub friction: Option<R>,
}

/// Cohesion between particles of different bodies: pairs within the radius are brought to it.
#[derive(Clone, Copy, Debug)]
pub struct CohesionParams<R> {
    /// The distance within which particles are bonded, and at which they come to rest.
    pub radius: R,
    /// Compliance of the bond; zero is hard.
    pub stiffness: R,
    /// The distance beyond which a bond is broken.
    pub break_distance: R,
}

/// A deformable body.
#[derive(Clone, Debug)]
pub struct SoftBody<R> {
    /// Point masses.
    pub particles: Vec<SoftParticle<R>>,
    /// Springs, used by the mass-spring solver.
    pub springs: Vec<Spring<R>>,
    /// Edges, used by the position solver.
    pub distance_constraints: Vec<DistanceConstraint<R>>,
    /// Volume elements by their four particles.
    pub tetrahedra: Vec<[u32; 4]>,
    /// Signed volume that each element is held at.
    pub tetra_rest_volumes: Vec<R>,
    /// Faces by their three particles.
    pub triangles: Vec<[u32; 3]>,
    /// How the body is advanced.
    pub solver: SoftSolver<R>,
    /// Acceleration of every movable particle.
    pub gravity: Vector<R>,
    /// Whether the body is left as it is.
    pub sleeping: bool,
    /// Whether the particles are moved from outside; a step then only edits the topology.
    pub collide: bool,
    /// Radius of the collider that stands for a particle.
    pub particle_radius: R,
    /// Wind.
    pub wind: Option<Wind<R>>,
    /// Force per area inside the body.
    pub pressure: Option<R>,
    /// The share of every velocity that a step removes.
    pub damping: R,
    /// Into how many equal parts a step is split.
    pub substeps: u32,
    /// The strain beyond which an edge snaps.
    pub tear_strain: Option<R>,
    /// When edges keep a deformation.
    pub plasticity: Option<PlasticityParams<R>>,
    /// How the particles of this body repel each other.
    pub self_collision: Option<SelfCollisionParams<R>>,
    /// How the particles of this body and of another repel each other.
    pub cross_collision: Option<SelfCollisionParams<R>>,
    /// Compliance of the volume elements, if they have one of their own.
    pub volume_conservation: Option<R>,
    /// How this body sticks to others.
    pub cohesion: Option<CohesionParams<R>>,
}

/// What a soft body holds.
#[verifier::ext_equal]
pub ghost struct SoftState<R> {
    /// Point masses.
    pub particles: Seq<SoftParticle<R>>,
    /// Springs.
    pub springs: Seq<Spring<R>>,
    /// Edges.
    pub distance_constraints: Seq<DistanceConstraint<R>>,
    /// Volume elements.
    pub tetrahedra: Seq<[u32; 4]>,
    /// Their rest volumes.
    pub tetra_rest_volumes: Seq<R>,
    /// Faces.
    pub triangles: Seq<[u32; 3]>,
    /// How the body is advanced.
    pub solver: SoftSolver<R>,
    /// Acceleration of every movable particle.
    pub gravity: Vector<R>,
    /// Whether the body is left as it is.
    pub sleeping: bool,
    /// Whether the particles are moved from outside.
    pub collide: bool,
    /// Radius of the collider that stands for a particle.
    pub particle_radius: R,
    /// Wind.
    pub wind: Option<Wind<R>>,
    /// Force per area inside the body.
    pub pressure: Option<R>,
    /// The share of every velocity that a step removes.
    pub damping: R,
    /// Into how many equal parts a step is split.
    pub substeps: u32,
    /// The strain beyond which an edge snaps.
    pub tear_strain: Option<R>,
    /// When edges keep a deformation.
    pub plasticity: Option<PlasticityParams<R>>,
    /// How the particles of this body repel each other.
    pub self_collision: Option<SelfCollisionParams<R>>,
    /// How the particles of this body and of another repel each other.
    pub cross_collision: Option<SelfCollisionParams<R>>,
    /// Compliance of the volume elements.
    pub volume_conservation: Option<R>,
    /// How this body sticks to others.
    pub cohesion: Option<CohesionParams<R>>,
}

impl<R> View for SoftBody<R> {
    type V = SoftState<R>;

    open spec fn view(&self) -> SoftState<R> {
        SoftState {
            particles: self.particles@,
            springs: self.springs@,
            distance_constraints: self.distance_constraints@,
            tetrahedra: self.tetrahedra@,
            tetra_rest_volumes: self.tetra_rest_volumes@,
            triangles: self.triangles@,
            solver: self.solver,
            gravity: self.gravity,
            sleeping: self.sleeping,
            collide: self.collide,
            particle_radius: self.particle_radius,
            wind: self.wind,
            pressure: self.pressure,
            damping: self.damping,
            substeps: self.substeps,
            tear_strain: self.tear_strain,
            plasticity: self.plasticity,
            self_collision: self.self_collision,
            cross_collision: self.cross_collision,
            volume_conservation: self.volume_conservation,
            cohesion: self.cohesion,
        }
    }
}

/// Both ends of an edge are among `n` particles.
pub open spec fn edge_valid<R>(c: DistanceConstraint<R>, n: nat) -> bool {
    c.a < n && c.b < n
}

/// The corners of a volume element are among `n` particles.
pub open spec fn tetra_valid(t: [u32; 4], n: nat) -> bool {
    t[0] < n && t[1] < n && t[2] < n && t[3] < n
}

/// The corners of a face are among `n` particles.
pub open spec fn triangle_valid(t: [u32; 3], n: nat) -> bool {
    t[0] < n && t[1] < n && t[2] < n
}

impl<R> SoftState<R> {
    /// The corners of the first `n` volume elements are particles of the body.
    pub open spec fn tetras_there(self, n: nat) -> bool {
        forall|i: int|
            0 <= i < n ==> tetra_valid(#[trigger] self.tetrahedra[i], self.particles.len())
    }

    /// What the position solver needs: edges and volume elements join particles of the body, and
    /// every volume element has a rest volume.
    pub open spec fn projectable(self) -> bool {
        &&& self.tetrahedra.len() <= self.tetra_rest_volumes.len()
        &&& self.tetras_there(self.tetrahedra.len())
        &&& forall|i: int|
            0 <= i < self.distance_constraints.len() ==> edge_valid(
                #[trigger] self.distance_constraints[i],
                self.particles.len(),
            )
    }

    /// Edges, volume elements and faces join particles of the body, and every volume element has
    /// a rest volume. Springs need not be checked: one without both ends exerts no force.
    pub open spec fn wf(self) -> bool {
        let n = self.particles.len();
        &&& self.tetrahedra.len() == self.tetra_rest_volumes.len()
        &&& forall|i: int|
            0 <= i < self.distance_constraints.len() ==> edge_valid(
                #[trigger] self.distance_constraints[i],
                n,
            )
        &&& forall|i: int|
            0 <= i < self.tetrahedra.len() ==> tetra_valid(#[trigger] self.tetrahedra[i], n)
        &&& forall|i: int|
            0 <= i < self.triangles.len() ==> triangle_valid(#[trigger] self.triangles[i], n)
    }
}

/// The body with particle `i` moved by `v`.
pub open spec fn moved<R: Real>(
    ps: Seq<SoftParticle<R>>,
    i: int,
    v: Vector<R>,
) -> Seq<SoftParticle<R>> {
    ps.update(i, SoftParticle { pos: ps[i].pos.add(v), ..ps[i] })
}

/// The body with particle `i` moved against `v`.
pub open spec fn moved_back<R: Real>(
    ps: Seq<SoftParticle<R>>,
    i: int,
    v: Vector<R>,
) -> Seq<SoftParticle<R>> {
    ps.update(i, SoftParticle { pos: ps[i].pos.sub(v), ..ps[i] })
}

/// The same particles, possibly at other places with other velocities and forces.
pub open spec fn same_particles<R>(ps: Seq<SoftParticle<R>>, qs: Seq<SoftParticle<R>>) -> bool {
    &&& ps.len() == qs.len()
    &&& forall|i: int|
        #![trigger ps[i]]
        #![trigger qs[i]]
        0 <= i < ps.len() ==> ps[i].inv_mass == qs[i].inv_mass && ps[i].bound_body
            == qs[i].bound_body && ps[i].bound_local == qs[i].bound_local
}

} // verus!
