//! The two solvers: spring forces with an integrator, and projected position constraints.
use vstd::prelude::*;
use crate::dynamics::soft_body::constraints;
use crate::dynamics::soft_body::constraints::{
    damp_contacts, solve_distance_constraint, solve_volume_constraint,
};
use crate::dynamics::soft_body::model;
use crate::dynamics::soft_body::model::{
    DistanceConstraint, SoftBody, SoftParticle, SoftSolver, SoftState, Wind,
};
use crate::dynamics::soft_body::self_collision;
use crate::dynamics::soft_body::self_collision::weights_of;
use crate::math::Vector;
use crate::scalar::Real;

verus! {

/// How often the mass-spring solver pushes touching particles apart in a substep.
pub const MASS_SPRING_PASSES: u32 = 4;

/// The state of a body while its constraints are being projected.
#[verifier::ext_equal]
pub ghost struct Sweep<R> {
    /// The particles.
    pub particles: Seq<SoftParticle<R>>,
    /// The multiplier of every edge.
    pub edge_lambdas: Seq<R>,
    /// The multiplier of every volume element.
    pub volume_lambdas: Seq<R>,
    /// The pairs that touched so far.
    pub contacts: Seq<(usize, usize)>,
}

/// No correction on any of `n` constraints.
pub open spec fn no_corrections<R: Real>(n: nat) -> Seq<R> {
    Seq::new(n, |i: int| R::zero())
}

fn zero_corrections<R: Real>(n: usize) -> (out: Vec<R>)
    ensures
        out@ == no_corrections::<R>(n as nat),
{
    let mut out: Vec<R> = Vec::new();
    for i in 0..n
        invariant
            out@ == no_corrections::<R>(i as nat),
    {
        out.push(R::zero());
    }
    out
}

/// The compliance of an edge of the given length, over the square of the time step: that for
/// stretch if the edge is longer than its rest length, else that for compression.
pub open spec fn edge_alpha<R: Real>(c: DistanceConstraint<R>, len: R, dt: R) -> R {
    let compliance = if c.rest.lt(len) {
        c.compliance
    } else {
        c.compression
    };
    compliance.div(dt.mul(dt))
}

/// The first `n` edges projected in their order.
pub open spec fn edges_swept<R: Real>(
    s: Sweep<R>,
    edges: Seq<DistanceConstraint<R>>,
    w: Seq<R>,
    dt: R,
    n: nat,
) -> Sweep<R>
    decreases n,
{
    if n == 0 {
        s
    } else {
        let p = edges_swept(s, edges, w, dt, (n - 1) as nat);
        let c = edges[n - 1];
        let len = p.particles[c.a as int].pos.sub(p.particles[c.b as int].pos).length();
        let r = constraints::distance_projected(
            p.particles,
            c.a as int,
            c.b as int,
            c.rest,
            edge_alpha(c, len, dt),
            w,
            p.edge_lambdas[n - 1],
        );
        Sweep {
            particles: r.particles,
            edge_lambdas: p.edge_lambdas.update(n - 1, r.lambda),
            ..p
        }
    }
}

/// The first `n` volume elements projected in their order.
pub open spec fn volumes_swept<R: Real>(
    s: Sweep<R>,
    tets: Seq<[u32; 4]>,
    rests: Seq<R>,
    alpha: R,
    w: Seq<R>,
    n: nat,
) -> Sweep<R>
    decreases n,
{
    if n == 0 {
        s
    } else {
        let p = volumes_swept(s, tets, rests, alpha, w, (n - 1) as nat);
        let r = constraints::volume_projected(
            p.particles,
            tets[n - 1],
            rests[n - 1],
            alpha,
            w,
            p.volume_lambdas[n - 1],
        );
        Sweep {
            particles: r.particles,
            volume_lambdas: p.volume_lambdas.update(n - 1, r.lambda),
            ..p
        }
    }
}

/// A particle moved ahead by its velocity and the accelerations of gravity, wind and pressure.
pub open spec fn predicted<R: Real>(
    p: SoftParticle<R>,
    gravity: Vector<R>,
    wind: Option<Wind<R>>,
    pressure: Vector<R>,
    dt: R,
) -> SoftParticle<R> {
    if !p.is_free() {
        p
    } else {
        let blown = match wind {
            Some(w) => gravity.add(w.accel).sub(p.vel.scale(w.drag)),
            None => gravity,
        };
        let vel = p.vel.add(blown.add(pressure.scale(p.inv_mass)).scale(dt));
        SoftParticle { vel, pos: p.pos.add(vel.scale(dt)), ..p }
    }
}

/// A particle with the velocity that brought it from `prev` to where it is, all but `keep` of it
/// lost.
pub open spec fn recovered<R: Real>(
    p: SoftParticle<R>,
    prev: Vector<R>,
    keep: R,
    dt: R,
) -> SoftParticle<R> {
    if !p.is_free() {
        p
    } else {
        let vel = p.pos.sub(prev).div(dt);
        SoftParticle {
            vel: if keep.lt(R::one()) {
                vel.scale(keep)
            } else {
                vel
            },
            ..p
        }
    }
}

impl<R: Real> SoftState<R> {
    /// The same body with other particles.
    pub open spec fn with_particles(self, particles: Seq<SoftParticle<R>>) -> SoftState<R> {
        SoftState { particles, ..self }
    }

    /// Whether the solver can run on the body. Only the position solver asks for anything, and
    /// only while the body is awake and constraints are projected.
    pub open spec fn ready(self) -> bool {
        match self.solver {
            SoftSolver::MassSpring => true,
            SoftSolver::Xpbd { iterations, compliance } => self.sleeping || iterations == 0
                || self.projectable(),
        }
    }

    /// Compliance of the solver over the square of the time step.
    pub open spec fn solver_alpha(self, dt: R) -> R {
        match self.solver {
            SoftSolver::Xpbd { iterations, compliance } => compliance.div(dt.mul(dt)),
            SoftSolver::MassSpring => R::zero().div(dt.mul(dt)),
        }
    }

    /// Compliance of the volume elements over the square of the time step.
    pub open spec fn volume_alpha(self, dt: R) -> R {
        match self.volume_conservation {
            Some(c) => c.div(dt.mul(dt)),
            None => self.solver_alpha(dt),
        }
    }

    /// Compliance of the repulsion over the square of the time step.
    pub open spec fn contact_alpha(self, dt: R) -> R {
        match self.self_collision {
            Some(p) => p.stiffness.div(dt.mul(dt)),
            None => R::zero(),
        }
    }

    /// The friction between particles of the body.
    pub open spec fn contact_friction(self) -> Option<R> {
        match self.self_collision {
            Some(p) => p.friction,
            None => None,
        }
    }

    /// The particles moved ahead.
    pub open spec fn predicted(self, dt: R) -> Seq<SoftParticle<R>> {
        Seq::new(
            self.particles.len(),
            |i: int|
                predicted(
                    self.particles[i],
                    self.gravity,
                    self.wind,
                    self.pressure_forces()[i],
                    dt,
                ),
        )
    }

    /// The constraints of the body projected once: edges, then volume elements, then repulsion.
    pub open spec fn swept(self, s: Sweep<R>, dt: R) -> Sweep<R> {
        let w = self_collision::weights(self.particles);
        let e = edges_swept(
            s,
            self.distance_constraints,
            w,
            dt,
            self.distance_constraints.len(),
        );
        let v = volumes_swept(
            e,
            self.tetrahedra,
            self.tetra_rest_volumes,
            self.volume_alpha(dt),
            w,
            self.tetrahedra.len(),
        );
        let c = self.with_particles(v.particles).self_collided(self.contact_alpha(dt));
        Sweep { particles: c.particles, contacts: v.contacts + c.contacts, ..v }
    }

    /// The constraints of the body projected `n` times.
    pub open spec fn projected(self, dt: R, n: nat) -> Sweep<R>
        decreases n,
    {
        if n == 0 {
            Sweep {
                particles: self.predicted(dt),
                edge_lambdas: no_corrections(self.distance_constraints.len()),
                volume_lambdas: no_corrections(self.tetrahedra.len()),
                contacts: Seq::empty(),
            }
        } else {
            self.swept(self.projected(dt, (n - 1) as nat), dt)
        }
    }

    /// The particles after friction at the given contacts.
    pub open spec fn rubbed(
        self,
        ps: Seq<SoftParticle<R>>,
        contacts: Seq<(usize, usize)>,
    ) -> Seq<SoftParticle<R>> {
        match self.contact_friction() {
            Some(mu) => constraints::friction_applied(ps, contacts, mu, contacts.len()),
            None => ps,
        }
    }

    /// One substep of the position solver: predict, project, recover the velocities, apply
    /// friction.
    pub open spec fn xpbd_stepped(self, dt: R) -> SoftState<R> {
        match self.solver {
            SoftSolver::Xpbd { iterations, compliance } => if self.sleeping || iterations == 0 {
                self
            } else {
                let s = self.projected(dt, iterations as nat);
                let keep = R::one().sub(self.damping);
                let moving = Seq::new(
                    self.particles.len(),
                    |i: int| recovered(s.particles[i], self.particles[i].pos, keep, dt),
                );
                self.with_particles(self.rubbed(moving, s.contacts))
            },
            SoftSolver::MassSpring => self,
        }
    }

    /// The repulsion applied `n` times, with the pairs that touched.
    pub open spec fn pushed_apart(self, alpha: R, n: nat) -> self_collision::Pushed<R>
        decreases n,
    {
        if n == 0 {
            self_collision::Pushed { particles: self.particles, contacts: Seq::empty() }
        } else {
            let before = self.pushed_apart(alpha, (n - 1) as nat);
            let c = self.with_particles(before.particles).self_collided(alpha);
            self_collision::Pushed {
                particles: c.particles,
                contacts: before.contacts + c.contacts,
            }
        }
    }

    /// One substep of the mass-spring solver: forces, integration, then repulsion and friction.
    pub open spec fn mass_spring_stepped(self, dt: R) -> SoftState<R> {
        if self.sleeping {
            self
        } else {
            let moved = self.forces_computed().integrated(dt);
            match self.self_collision {
                Some(p) => {
                    let s = moved.pushed_apart(
                        p.stiffness.div(dt.mul(dt)),
                        MASS_SPRING_PASSES as nat,
                    );
                    moved.with_particles(moved.rubbed(s.particles, s.contacts))
                },
                None => moved,
            }
        }
    }
}

fn sweep_edges<R: Real>(
    particles: &mut Vec<SoftParticle<R>>,
    edges: &Vec<DistanceConstraint<R>>,
    w: &Vec<R>,
    dt: R,
    lambdas: &mut Vec<R>,
    start: Ghost<Sweep<R>>,
)
    requires
        start@.particles == old(particles)@,
        start@.edge_lambdas == old(lambdas)@,
        w@.len() == old(particles)@.len(),
        old(lambdas)@.len() == edges@.len(),
        forall|i: int|
            0 <= i < edges@.len() ==> model::edge_valid(
                #[trigger] edges@[i],
                old(particles)@.len(),
            ),
    ensures
        edges_swept(start@, edges@, w@, dt, edges@.len()) == (Sweep {
            particles: final(particles)@,
            edge_lambdas: final(lambdas)@,
            ..start@
        }),
        final(particles)@.len() == old(particles)@.len(),
        final(lambdas)@.len() == old(lambdas)@.len(),
{
    let n: usize = edges.len();
    for k in 0..n
        invariant
            n == edges@.len(),
            n == lambdas@.len(),
            w@.len() == particles@.len(),
            particles@.len() == old(particles)@.len(),
            forall|i: int|
                0 <= i < edges@.len() ==> model::edge_valid(
                    #[trigger] edges@[i],
                    particles@.len(),
                ),
            edges_swept(start@, edges@, w@, dt, k as nat) == (Sweep {
                particles: particles@,
                edge_lambdas: lambdas@,
                ..start@
            }),
    {
        let c = edges[k];
        assert(model::edge_valid(edges@[k as int], particles@.len()));
        let len = particles[c.a].pos.sub(particles[c.b].pos).length();
        let compliance = if c.rest.lt(len) {
            c.compliance
        } else {
            c.compression
        };
        let alpha = compliance.div(dt.mul(dt));
        let mut lambda = lambdas[k];
        solve_distance_constraint(particles, c.a, c.b, c.rest, alpha, w, &mut lambda);
        lambdas[k] = lambda;
    }
}

fn sweep_volumes<R: Real>(
    particles: &mut Vec<SoftParticle<R>>,
    tets: &Vec<[u32; 4]>,
    rests: &Vec<R>,
    alpha: R,
    w: &Vec<R>,
    lambdas: &mut Vec<R>,
    start: Ghost<Sweep<R>>,
)
    requires
        start@.particles == old(particles)@,
        start@.volume_lambdas == old(lambdas)@,
        w@.len() == old(particles)@.len(),
        old(lambdas)@.len() == tets@.len(),
        tets@.len() <= rests@.len(),
        forall|i: int|
            0 <= i < tets@.len() ==> model::tetra_valid(
                #[trigger] tets@[i],
                old(particles)@.len(),
            ),
    ensures
        volumes_swept(start@, tets@, rests@, alpha, w@, tets@.len()) == (Sweep {
            particles: final(particles)@,
            volume_lambdas: final(lambdas)@,
            ..start@
        }),
        final(particles)@.len() == old(particles)@.len(),
        final(lambdas)@.len() == old(lambdas)@.len(),
{
    let n: usize = tets.len();
    for k in 0..n
        invariant
            n == tets@.len(),
            n == lambdas@.len(),
            n <= rests@.len(),
            w@.len() == particles@.len(),
            particles@.len() == old(particles)@.len(),
            forall|i: int|
                0 <= i < tets@.len() ==> model::tetra_valid(
                    #[trigger] tets@[i],
                    particles@.len(),
                ),
            volumes_swept(start@, tets@, rests@, alpha, w@, k as nat) == (Sweep {
                particles: particles@,
                volume_lambdas: lambdas@,
                ..start@
            }),
    {
        assert(model::tetra_valid(tets@[k as int], particles@.len()));
        let mut lambda = lambdas[k];
        solve_volume_constraint(particles, tets[k], rests[k], alpha, w, &mut lambda);
        lambdas[k] = lambda;
    }
}

proof fn lemma_contacts_appended(a: Seq<(usize, usize)>, b: Seq<(usize, usize)>, n: nat)
    requires
        constraints::contacts_valid(a, n),
        constraints::contacts_valid(b, n),
    ensures
        constraints::contacts_valid(a + b, n),
{
    let c = a + b;
    assert forall|k: int| 0 <= k < c.len() implies (#[trigger] c[k]).0 < c[k].1 && c[k].1 < n by {
        if k < a.len() {
            assert(c[k] == a[k]);
        } else {
            assert(c[k] == b[k - a.len()]);
        }
    }
}

impl<R: Real> SoftBody<R> {
    /// Compliance of the position solver over the square of the time step.
    pub fn xpbd_alpha(&self, dt: R) -> (alpha: R)
        ensures
            alpha == self@.solver_alpha(dt),
    {
        let compliance = match self.solver {
            SoftSolver::Xpbd { iterations, compliance } => compliance,
            SoftSolver::MassSpring => R::zero(),
        };
        compliance.div(dt.mul(dt))
    }

    fn predict(&mut self, dt: R)
        ensures
            final(self)@ == old(self)@.with_particles(old(self)@.predicted(dt)),
    {
        let pressure = self.pressure_forces();
        let gravity = self.gravity;
        let wind = self.wind;
        let n: usize = self.particles.len();
        let ghost before = self@;
        for i in 0..n
            invariant
                n == self.particles@.len(),
                n == before.particles.len(),
                self@ == before.with_particles(self.particles@),
                pressure@ == before.pressure_forces(),
                pressure@.len() == n,
                gravity == before.gravity,
                wind == before.wind,
                forall|k: int|
                    0 <= k < i ==> #[trigger] self.particles@[k] == before.predicted(dt)[k],
                forall|k: int|
                    i <= k < n ==> #[trigger] self.particles@[k] == before.particles[k],
        {
            let p = self.particles[i];
            if p.is_free() {
                let mut accel = gravity;
                if let Some(w) = wind {
                    accel = accel.add(w.accel);
                    accel = accel.sub(p.vel.scale(w.drag));
                }
                accel = accel.add(pressure[i].scale(p.inv_mass));
                let vel = p.vel.add(accel.scale(dt));
                self.particles[i].vel = vel;
                self.particles[i].pos = p.pos.add(vel.scale(dt));
            }
        }
        assert(self.particles@ == before.predicted(dt));
    }

    fn positions(&self) -> (out: Vec<Vector<R>>)
        ensures
            out@.len() == self@.particles.len(),
            forall|i: int|
                0 <= i < out@.len() ==> #[trigger] out@[i] == self@.particles[i].pos,
    {
        let mut out: Vec<Vector<R>> = Vec::new();
        let n: usize = self.particles.len();
        for i in 0..n
            invariant
                n == self.particles@.len(),
                out@.len() == i,
                forall|k: int| 0 <= k < i ==> #[trigger] out@[k] == self@.particles[k].pos,
        {
            out.push(self.particles[i].pos);
        }
        out
    }

    fn recover(&mut self, prev: &Vec<Vector<R>>, dt: R)
        requires
            prev@.len() == old(self)@.particles.len(),
        ensures
            final(self)@ == old(self)@.with_particles(
                Seq::new(
                    old(self)@.particles.len(),
                    |i: int|
                        recovered(
                            old(self)@.particles[i],
                            prev@[i],
                            R::one().sub(old(self)@.damping),
                            dt,
                        ),
                ),
            ),
    {
        let keep = R::one().sub(self.damping);
        let n: usize = self.particles.len();
        let ghost before = self@;
        for i in 0..n
            invariant
                n == self.particles@.len(),
                n == before.particles.len(),
                n == prev@.len(),
                self@ == before.with_particles(self.particles@),
                keep == R::spec_one().sub(before.damping),
                forall|k: int|
                    0 <= k < i ==> #[trigger] self.particles@[k] == recovered(
                        before.particles[k],
                        prev@[k],
                        keep,
                        dt,
                    ),
                forall|k: int|
                    i <= k < n ==> #[trigger] self.particles@[k] == before.particles[k],
        {
            let p = self.particles[i];
            if p.is_free() {
                let mut vel = p.pos.sub(prev[i]).div(dt);
                if keep.lt(R::one()) {
                    vel = vel.scale(keep);
                }
                self.particles[i].vel = vel;
            }
        }
    }

    fn rub(&mut self, contacts: &Vec<(usize, usize)>)
        requires
            constraints::contacts_valid(contacts@, old(self)@.particles.len()),
        ensures
            final(self)@ == old(self)@.with_particles(
                old(self)@.rubbed(old(self)@.particles, contacts@),
            ),
            final(self)@.particles.len() == old(self)@.particles.len(),
    {
        if let Some(p) = self.self_collision {
            if let Some(mu) = p.friction {
                damp_contacts(&mut self.particles, contacts, mu);
            }
        }
    }

    /// One substep of the position solver.
    ///
    /// Free particles are moved ahead by gravity, wind, pressure and their velocity. Then edges,
    /// volume elements and repulsion are projected in a fixed order, as often as the solver says.
    /// At last the velocities are recovered from the way the particles have gone.
    pub fn step_xpbd(&mut self, dt: R)
        requires
            old(self)@.ready(),
        ensures
            final(self)@ == old(self)@.xpbd_stepped(dt),
            final(self)@.particles.len() == old(self)@.particles.len(),
    {
        if self.sleeping {
            return;
        }
        let iterations: u32 = match self.solver {
            SoftSolver::Xpbd { iterations, compliance } => iterations,
            SoftSolver::MassSpring => {
                return;
            },
        };
        if iterations == 0 {
            return;
        }
        let ghost start = self@;
        let w = weights_of(&self.particles);
        let prev = self.positions();
        let volume_alpha = match self.volume_conservation {
            Some(c) => c.div(dt.mul(dt)),
            None => self.xpbd_alpha(dt),
        };
        let contact_alpha = match self.self_collision {
            Some(p) => p.stiffness.div(dt.mul(dt)),
            None => R::zero(),
        };
        self.predict(dt);
        let mut edge_lambdas: Vec<R> = zero_corrections(self.distance_constraints.len());
        let mut volume_lambdas: Vec<R> = zero_corrections(self.tetrahedra.len());
        let mut contacts: Vec<(usize, usize)> = Vec::new();
        for k in 0..iterations
            invariant
                start.projectable(),
                self@ == start.with_particles(self.particles@),
                self.particles@.len() == start.particles.len(),
                w@ == self_collision::weights(start.particles),
                volume_alpha == start.volume_alpha(dt),
                contact_alpha == start.contact_alpha(dt),
                edge_lambdas@.len() == start.distance_constraints.len(),
                volume_lambdas@.len() == start.tetrahedra.len(),
                constraints::contacts_valid(contacts@, start.particles.len()),
                start.projected(dt, k as nat) == (Sweep {
                    particles: self.particles@,
                    edge_lambdas: edge_lambdas@,
                    volume_lambdas: volume_lambdas@,
                    contacts: contacts@,
                }),
        {
            let ghost s0 = start.projected(dt, k as nat);
            sweep_edges(
                &mut self.particles,
                &self.distance_constraints,
                &w,
                dt,
                &mut edge_lambdas,
                Ghost(s0),
            );
            let ghost s1 = Sweep {
                particles: self.particles@,
                edge_lambdas: edge_lambdas@,
                ..s0
            };
            sweep_volumes(
                &mut self.particles,
                &self.tetrahedra,
                &self.tetra_rest_volumes,
                volume_alpha,
                &w,
                &mut volume_lambdas,
                Ghost(s1),
            );
            let mut touching = self.solve_self_collisions(contact_alpha);
            proof {
                lemma_contacts_appended(contacts@, touching@, start.particles.len());
            }
            contacts.append(&mut touching);
        }
        self.recover(&prev, dt);
        let ghost s = start.projected(dt, iterations as nat);
        assert(self.particles@ == Seq::new(
            start.particles.len(),
            |i: int|
                recovered(
                    s.particles[i],
                    start.particles[i].pos,
                    R::one().sub(start.damping),
                    dt,
                ),
        ));
        self.rub(&contacts);
    }

    /// One substep of the mass-spring solver: forces, a semi-implicit step, then a few passes of
    /// repulsion and the friction of the pairs that touched.
    pub fn step_mass_spring(&mut self, dt: R)
        ensures
            final(self)@ == old(self)@.mass_spring_stepped(dt),
            final(self)@.particles.len() == old(self)@.particles.len(),
    {
        if self.sleeping {
            return;
        }
        self.compute_forces();
        self.integrate(dt);
        if let Some(p) = self.self_collision {
            let alpha = p.stiffness.div(dt.mul(dt));
            let ghost moved = self@;
            let mut contacts: Vec<(usize, usize)> = Vec::new();
            for k in 0..MASS_SPRING_PASSES
                invariant
                    self@ == moved.with_particles(self.particles@),
                    self.particles@.len() == moved.particles.len(),
                    constraints::contacts_valid(contacts@, moved.particles.len()),
                    moved.pushed_apart(alpha, k as nat) == (self_collision::Pushed {
                        particles: self.particles@,
                        contacts: contacts@,
                    }),
            {
                let mut touching = self.solve_self_collisions(alpha);
                proof {
                    lemma_contacts_appended(contacts@, touching@, moved.particles.len());
                }
                contacts.append(&mut touching);
            }
            self.rub(&contacts);
        }
    }
}

} // verus!
