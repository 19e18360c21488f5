//! One step of a soft body.
use vstd::prelude::*;
use crate::dynamics::soft_body::model;
use crate::dynamics::soft_body::model::{SoftBody, SoftSolver, SoftState};
use crate::dynamics::soft_body::topology;
use crate::scalar::Real;

verus! {

impl<R: Real> SoftState<R> {
    /// One substep of the solver that the body uses.
    pub open spec fn substepped(self, dt: R) -> SoftState<R> {
        match self.solver {
            SoftSolver::MassSpring => self.mass_spring_stepped(dt),
            SoftSolver::Xpbd { iterations, compliance } => self.xpbd_stepped(dt),
        }
    }

    /// The first `n` substeps.
    pub open spec fn substeps_taken(self, dt: R, n: nat) -> SoftState<R>
        decreases n,
    {
        if n == 0 {
            self
        } else {
            self.substeps_taken(dt, (n - 1) as nat).substepped(dt)
        }
    }

    /// Into how many parts a step is split; at least one.
    pub open spec fn parts(self) -> usize {
        if self.substeps == 0 {
            1
        } else {
            self.substeps as usize
        }
    }

    /// Whether the body can be stepped: it is left alone, moved from outside, or the solver can
    /// run on what is left once it has torn.
    pub open spec fn can_step(self) -> bool {
        self.sleeping || self.collide || self.torn().ready()
    }

    /// The body after a step: torn, deformed, and advanced in equal parts. A sleeping body stays
    /// as it is, and one that is moved from outside is not advanced.
    pub open spec fn stepped(self, dt: R) -> SoftState<R> {
        if self.sleeping {
            self
        } else {
            let edited = self.torn().deformed();
            if self.collide {
                edited
            } else {
                edited.substeps_taken(dt.div(R::from_usize(self.parts())), self.parts() as nat)
            }
        }
    }
}

/// Creep takes nothing away that the solver needs.
pub proof fn lemma_deformed_ready<R: Real>(s: SoftState<R>)
    requires
        s.ready(),
    ensures
        s.deformed().ready(),
{
    let d = s.deformed();
    if s.projectable() {
        assert forall|i: int| 0 <= i < d.distance_constraints.len() implies model::edge_valid(
            #[trigger] d.distance_constraints[i],
            d.particles.len(),
        ) by {
            assert(model::edge_valid(s.distance_constraints[i], s.particles.len()));
        }
        assert(d.tetras_there(d.tetrahedra.len()));
    }
}

/// A consistent body can be stepped.
pub proof fn lemma_consistent_bodies_can_step<R: Real>(s: SoftState<R>)
    requires
        s.wf(),
    ensures
        s.can_step(),
{
    topology::lemma_torn_wf(s);
}

impl<R: Real> SoftBody<R> {
    /// Advances the body by `dt`: overstretched edges snap, overstrained ones deform, and the
    /// solver runs once for every equal part of the step.
    pub fn step(&mut self, dt: R)
        requires
            old(self)@.can_step(),
        ensures
            final(self)@ == old(self)@.stepped(dt),
            old(self)@.wf() ==> final(self)@.wf(),
    {
        if self.sleeping {
            return;
        }
        self.tear();
        proof {
            if !self.collide {
                lemma_deformed_ready(self@);
            }
        }
        self.apply_plasticity();
        if self.collide {
            return;
        }
        let ghost edited = self@;
        let parts: usize = if self.substeps == 0 {
            1
        } else {
            self.substeps as usize
        };
        let part = dt.div(R::from_usize(parts));
        for k in 0..parts
            invariant
                edited.ready(),
                old(self)@.wf() ==> edited.wf(),
                self@ == edited.with_particles(self.particles@),
                self.particles@.len() == edited.particles.len(),
                self@ == edited.substeps_taken(part, k as nat),
        {
            match self.solver {
                SoftSolver::MassSpring => self.step_mass_spring(part),
                SoftSolver::Xpbd { iterations, compliance } => self.step_xpbd(part),
            }
        }
    }
}

} // verus!
