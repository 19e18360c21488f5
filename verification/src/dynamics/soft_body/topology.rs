//! Adding, tearing, deforming, refining and removing the parts of a soft body.
use vstd::prelude::*;
use crate::dynamics::soft_body::constraints::signed_tetra_volume;
use crate::dynamics::soft_body::model;
use crate::dynamics::soft_body::model::{
    DistanceConstraint, PlasticityParams, SoftBody, SoftParticle, SoftSolver, SoftState, Spring,
};
use crate::dynamics::soft_body::self_collision;
use crate::scalar::Real;
use crate::sequences;

verus! {

pub open spec fn spec_gap<R: Real>(a: SoftParticle<R>, b: SoftParticle<R>) -> R {
    b.pos.sub(a.pos).length()
}

/// The distance between two particles.
#[verifier::when_used_as_spec(spec_gap)]
pub fn gap<R: Real>(a: SoftParticle<R>, b: SoftParticle<R>) -> (d: R)
    ensures
        d == spec_gap(a, b),
{
    b.pos.sub(a.pos).length()
}

/// Whether an edge between two particles has both ends, and a length.
pub open spec fn can_join<R: Real>(ps: Seq<SoftParticle<R>>, a: int, b: int) -> bool {
    a < ps.len() && b < ps.len() && !gap(ps[a], ps[b]).equals(R::zero())
}

/// The edges with one more at its present length, unless the two particles are joined.
pub open spec fn with_edge<R: Real>(
    edges: Seq<DistanceConstraint<R>>,
    u: u32,
    v: u32,
    rest: R,
    compliance: R,
) -> Seq<DistanceConstraint<R>> {
    if self_collision::linked(edges, u as int, v as int) {
        edges
    } else {
        edges.push(
            DistanceConstraint {
                a: u as usize,
                b: v as usize,
                rest,
                compliance,
                compression: compliance,
            },
        )
    }
}

/// Whether a face can be added: three different particles, no two at one place.
pub open spec fn can_face<R: Real>(ps: Seq<SoftParticle<R>>, t: [u32; 3]) -> bool {
    &&& model::triangle_valid(t, ps.len())
    &&& t[0] != t[1] && t[0] != t[2] && t[1] != t[2]
    &&& !gap(ps[t[0] as int], ps[t[1] as int]).equals(R::zero())
    &&& !gap(ps[t[1] as int], ps[t[2] as int]).equals(R::zero())
    &&& !gap(ps[t[2] as int], ps[t[0] as int]).equals(R::zero())
}

/// Whether a volume element can be added: four different particles.
pub open spec fn can_tetra(t: [u32; 4], n: nat) -> bool {
    &&& model::tetra_valid(t, n)
    &&& t[0] != t[1] && t[0] != t[2] && t[0] != t[3]
    &&& t[1] != t[2] && t[1] != t[3] && t[2] != t[3]
}

impl<R: Real> SoftState<R> {
    /// The compliance of an edge that is added without one of its own: that of the position
    /// solver, and none where springs are used.
    pub open spec fn default_compliance(self) -> R {
        match self.solver {
            SoftSolver::Xpbd { iterations, compliance } => compliance,
            SoftSolver::MassSpring => R::zero(),
        }
    }
}

impl<R: Real> SoftBody<R> {
    /// Adds a spring at its present length between two particles. There is none if a particle is
    /// not there or the length is zero.
    pub fn add_spring(&mut self, a: usize, b: usize, stiffness: R, damping: R) -> (r: Option<
        usize,
    >)
        ensures
            r is Some <==> can_join(old(self)@.particles, a as int, b as int),
            match r {
                Some(index) => index == old(self)@.springs.len() && final(self)@ == (SoftState {
                    springs: old(self)@.springs.push(
                        Spring {
                            a,
                            b,
                            rest_length: gap(
                                old(self)@.particles[a as int],
                                old(self)@.particles[b as int],
                            ),
                            stiffness,
                            damping,
                        },
                    ),
                    ..old(self)@
                }),
                None => final(self)@ == old(self)@,
            },
    {
        if a >= self.particles.len() || b >= self.particles.len() {
            return None;
        }
        let rest = gap(self.particles[a], self.particles[b]);
        if rest.equals(R::zero()) {
            return None;
        }
        let index: usize = self.springs.len();
        self.springs.push(Spring { a, b, rest_length: rest, stiffness, damping });
        Some(index)
    }

    /// Adds an edge at its present length between two particles, with the same compliance in
    /// both directions. There is none if a particle is not there or the length is zero.
    pub fn add_distance_constraint(&mut self, a: usize, b: usize, compliance: R) -> (r: Option<
        usize,
    >)
        ensures
            r is Some <==> can_join(old(self)@.particles, a as int, b as int),
            match r {
                Some(index) => index == old(self)@.distance_constraints.len() && final(self)@ == (
                SoftState {
                    distance_constraints: old(self)@.distance_constraints.push(
                        DistanceConstraint {
                            a,
                            b,
                            rest: gap(
                                old(self)@.particles[a as int],
                                old(self)@.particles[b as int],
                            ),
                            compliance,
                            compression: compliance,
                        },
                    ),
                    ..old(self)@
                }),
                None => final(self)@ == old(self)@,
            },
            old(self)@.wf() ==> final(self)@.wf(),
    {
        if a >= self.particles.len() || b >= self.particles.len() {
            return None;
        }
        let rest = gap(self.particles[a], self.particles[b]);
        if rest.equals(R::zero()) {
            return None;
        }
        let index: usize = self.distance_constraints.len();
        self.distance_constraints.push(
            DistanceConstraint { a, b, rest, compliance, compression: compliance },
        );
        Some(index)
    }

    /// Adds an edge at its present length, to resist bending, with the compliance of the solver. There is none if a particle
    /// is not there or the length is zero.
    pub fn add_bending_constraint(&mut self, p: usize, q: usize) -> (r: Option<usize>)
        ensures
            r is Some <==> can_join(old(self)@.particles, p as int, q as int),
            match r {
                Some(index) => index == old(self)@.distance_constraints.len() && final(self)@ == (
                SoftState {
                    distance_constraints: old(self)@.distance_constraints.push(
                        DistanceConstraint {
                            a: p,
                            b: q,
                            rest: gap(
                                old(self)@.particles[p as int],
                                old(self)@.particles[q as int],
                            ),
                            compliance: old(self)@.default_compliance(),
                            compression: old(self)@.default_compliance(),
                        },
                    ),
                    ..old(self)@
                }),
                None => final(self)@ == old(self)@,
            },
            old(self)@.wf() ==> final(self)@.wf(),
    {
        let compliance = self.own_compliance();
        self.add_distance_constraint(p, q, compliance)
    }

    /// Adds a volume element at its present signed volume. There is none if a particle is not
    /// there or named twice.
    pub fn add_tetrahedron(&mut self, tet: [u32; 4]) -> (r: Option<usize>)
        ensures
            r is Some <==> can_tetra(tet, old(self)@.particles.len()),
            match r {
                Some(index) => index == old(self)@.tetrahedra.len() && final(self)@ == (SoftState {
                    tetrahedra: old(self)@.tetrahedra.push(tet),
                    tetra_rest_volumes: old(self)@.tetra_rest_volumes.push(
                        signed_tetra_volume(
                            old(self)@.particles[tet[0] as int].pos,
                            old(self)@.particles[tet[1] as int].pos,
                            old(self)@.particles[tet[2] as int].pos,
                            old(self)@.particles[tet[3] as int].pos,
                        ),
                    ),
                    ..old(self)@
                }),
                None => final(self)@ == old(self)@,
            },
            old(self)@.wf() ==> final(self)@.wf(),
    {
        let n: usize = self.particles.len();
        let a: usize = tet[0] as usize;
        let b: usize = tet[1] as usize;
        let c: usize = tet[2] as usize;
        let d: usize = tet[3] as usize;
        if a >= n || b >= n || c >= n || d >= n {
            return None;
        }
        if a == b || a == c || a == d || b == c || b == d || c == d {
            return None;
        }
        let volume = signed_tetra_volume(
            self.particles[a].pos,
            self.particles[b].pos,
            self.particles[c].pos,
            self.particles[d].pos,
        );
        let index: usize = self.tetrahedra.len();
        self.tetrahedra.push(tet);
        self.tetra_rest_volumes.push(volume);
        Some(index)
    }

    fn is_linked(&self, u: usize, v: usize) -> (found: bool)
        ensures
            found == self_collision::linked(self@.distance_constraints, u as int, v as int),
    {
        let n: usize = self.distance_constraints.len();
        for k in 0..n
            invariant
                n == self.distance_constraints@.len(),
                forall|m: int|
                    0 <= m < k ==> !(#[trigger] self_collision::joins(
                        self.distance_constraints@[m],
                        u as int,
                        v as int,
                    )),
        {
            let c = self.distance_constraints[k];
            if (c.a == u && c.b == v) || (c.a == v && c.b == u) {
                assert(self_collision::joins(
                    self.distance_constraints@[k as int],
                    u as int,
                    v as int,
                ));
                return true;
            }
        }
        false
    }

    fn own_compliance(&self) -> (c: R)
        ensures
            c == self@.default_compliance(),
    {
        match self.solver {
            SoftSolver::Xpbd { iterations, compliance } => compliance,
            SoftSolver::MassSpring => R::zero(),
        }
    }

    fn ensure_edge(&mut self, u: u32, v: u32, rest: R)
        ensures
            final(self)@ == (SoftState {
                distance_constraints: with_edge(
                    old(self)@.distance_constraints,
                    u,
                    v,
                    rest,
                    old(self)@.default_compliance(),
                ),
                ..old(self)@
            }),
    {
        if !self.is_linked(u as usize, v as usize) {
            let compliance = self.own_compliance();
            self.distance_constraints.push(
                DistanceConstraint {
                    a: u as usize,
                    b: v as usize,
                    rest,
                    compliance,
                    compression: compliance,
                },
            );
        }
    }

    /// Adds a face and, where they are missing, edges along its sides, with the compliance of the
    /// solver. There is none if a
    /// particle is not there or named twice, or if a side has no length.
    pub fn add_triangle(&mut self, tri: [u32; 3]) -> (r: Option<usize>)
        ensures
            r is Some <==> can_face(old(self)@.particles, tri),
            match r {
                Some(index) => {
                    let ps = old(self)@.particles;
                    let ab = with_edge(
                        old(self)@.distance_constraints,
                        tri[0],
                        tri[1],
                        gap(ps[tri[0] as int], ps[tri[1] as int]),
                        old(self)@.default_compliance(),
                    );
                    let bc = with_edge(
                        ab,
                        tri[1],
                        tri[2],
                        gap(ps[tri[1] as int], ps[tri[2] as int]),
                        old(self)@.default_compliance(),
                    );
                    let ca = with_edge(
                        bc,
                        tri[2],
                        tri[0],
                        gap(ps[tri[2] as int], ps[tri[0] as int]),
                        old(self)@.default_compliance(),
                    );
                    index == old(self)@.triangles.len() && final(self)@ == (SoftState {
                        distance_constraints: ca,
                        triangles: old(self)@.triangles.push(tri),
                        ..old(self)@
                    })
                },
                None => final(self)@ == old(self)@,
            },
            old(self)@.wf() ==> final(self)@.wf(),
    {
        let n: usize = self.particles.len();
        let a: usize = tri[0] as usize;
        let b: usize = tri[1] as usize;
        let c: usize = tri[2] as usize;
        if a >= n || b >= n || c >= n {
            return None;
        }
        if a == b || a == c || b == c {
            return None;
        }
        let ab = gap(self.particles[a], self.particles[b]);
        let bc = gap(self.particles[b], self.particles[c]);
        let ca = gap(self.particles[c], self.particles[a]);
        if ab.equals(R::zero()) || bc.equals(R::zero()) || ca.equals(R::zero()) {
            return None;
        }
        self.ensure_edge(tri[0], tri[1], ab);
        self.ensure_edge(tri[1], tri[2], bc);
        self.ensure_edge(tri[2], tri[0], ca);
        let index: usize = self.triangles.len();
        self.triangles.push(tri);
        Some(index)
    }
}

pub open spec fn spec_strain<R: Real>(len: R, rest: R) -> R {
    if R::zero().lt(rest) {
        len.sub(rest).div(rest)
    } else {
        R::zero()
    }
}

/// Elongation relative to the rest length; none for an edge without a positive rest length.
#[verifier::when_used_as_spec(spec_strain)]
pub fn strain<R: Real>(len: R, rest: R) -> (s: R)
    ensures
        s == spec_strain(len, rest),
{
    if R::zero().lt(rest) {
        len.sub(rest).div(rest)
    } else {
        R::zero()
    }
}

/// Whether an edge between two particles is there and stretched no further than `limit`.
pub open spec fn holds<R: Real>(
    ps: Seq<SoftParticle<R>>,
    a: usize,
    b: usize,
    rest: R,
    limit: R,
) -> bool {
    a < ps.len() && b < ps.len() && strain(gap(ps[a as int], ps[b as int]), rest).le(limit)
}

fn still_holds<R: Real>(
    ps: &Vec<SoftParticle<R>>,
    a: usize,
    b: usize,
    rest: R,
    limit: R,
) -> (r: bool)
    ensures
        r == holds(ps@, a, b, rest, limit),
{
    a < ps.len() && b < ps.len() && strain(gap(ps[a], ps[b]), rest).le(limit)
}

/// The edges that hold.
pub open spec fn holding_edges<R: Real>(
    ps: Seq<SoftParticle<R>>,
    limit: R,
) -> spec_fn(DistanceConstraint<R>) -> bool {
    |c: DistanceConstraint<R>| holds(ps, c.a, c.b, c.rest, limit)
}

/// The springs that hold.
pub open spec fn holding_springs<R: Real>(
    ps: Seq<SoftParticle<R>>,
    limit: R,
) -> spec_fn(Spring<R>) -> bool {
    |s: Spring<R>| holds(ps, s.a, s.b, s.rest_length, limit)
}

/// Whether a spring joins two particles, in either order.
pub open spec fn spring_joins<R>(s: Spring<R>, i: int, j: int) -> bool {
    (s.a == i && s.b == j) || (s.a == j && s.b == i)
}

/// Whether an edge or a spring joins two particles.
pub open spec fn side_present<R>(
    edges: Seq<DistanceConstraint<R>>,
    springs: Seq<Spring<R>>,
    i: int,
    j: int,
) -> bool {
    self_collision::linked(edges, i, j) || exists|k: int|
        0 <= k < springs.len() && #[trigger] spring_joins(springs[k], i, j)
}

/// The faces whose three sides are all present.
pub open spec fn whole_faces<R>(
    edges: Seq<DistanceConstraint<R>>,
    springs: Seq<Spring<R>>,
) -> spec_fn([u32; 3]) -> bool {
    |t: [u32; 3]|
        side_present(edges, springs, t[0] as int, t[1] as int) && side_present(
            edges,
            springs,
            t[1] as int,
            t[2] as int,
        ) && side_present(edges, springs, t[2] as int, t[0] as int)
}

impl<R: Real> SoftState<R> {
    /// The body without what is stretched too far: edges and springs beyond the limit are gone,
    /// and so are faces that lost a side.
    pub open spec fn torn(self) -> SoftState<R> {
        match self.tear_strain {
            Some(limit) => {
                let edges = self.distance_constraints.filter(
                    holding_edges(self.particles, limit),
                );
                let springs = self.springs.filter(holding_springs(self.particles, limit));
                SoftState {
                    distance_constraints: edges,
                    springs,
                    triangles: self.triangles.filter(whole_faces(edges, springs)),
                    ..self
                }
            },
            None => self,
        }
    }
}

fn keep_edges<R: Real>(
    ps: &Vec<SoftParticle<R>>,
    edges: &Vec<DistanceConstraint<R>>,
    limit: R,
) -> (kept: Vec<DistanceConstraint<R>>)
    ensures
        kept@ == edges@.filter(holding_edges(ps@, limit)),
{
    let mut kept: Vec<DistanceConstraint<R>> = Vec::new();
    let ghost keep = holding_edges(ps@, limit);
    let n: usize = edges.len();
    proof {
        sequences::lemma_filter_none(edges@, keep);
    }
    for i in 0..n
        invariant
            n == edges@.len(),
            keep == holding_edges(ps@, limit),
            kept@ == edges@.take(i as int).filter(keep),
    {
        let c = edges[i];
        proof {
            sequences::lemma_filter_next(edges@, i as int, keep);
        }
        if still_holds(ps, c.a, c.b, c.rest, limit) {
            kept.push(c);
        }
    }
    assert(edges@.take(n as int) == edges@);
    kept
}

fn keep_springs<R: Real>(
    ps: &Vec<SoftParticle<R>>,
    springs: &Vec<Spring<R>>,
    limit: R,
) -> (kept: Vec<Spring<R>>)
    ensures
        kept@ == springs@.filter(holding_springs(ps@, limit)),
{
    let mut kept: Vec<Spring<R>> = Vec::new();
    let ghost keep = holding_springs(ps@, limit);
    let n: usize = springs.len();
    proof {
        sequences::lemma_filter_none(springs@, keep);
    }
    for i in 0..n
        invariant
            n == springs@.len(),
            keep == holding_springs(ps@, limit),
            kept@ == springs@.take(i as int).filter(keep),
    {
        let s = springs[i];
        proof {
            sequences::lemma_filter_next(springs@, i as int, keep);
        }
        if still_holds(ps, s.a, s.b, s.rest_length, limit) {
            kept.push(s);
        }
    }
    assert(springs@.take(n as int) == springs@);
    kept
}

impl<R: Real> SoftBody<R> {
    fn has_side(&self, u: u32, v: u32) -> (found: bool)
        ensures
            found == side_present(
                self@.distance_constraints,
                self@.springs,
                u as int,
                v as int,
            ),
    {
        if self.is_linked(u as usize, v as usize) {
            return true;
        }
        let i: usize = u as usize;
        let j: usize = v as usize;
        let n: usize = self.springs.len();
        for k in 0..n
            invariant
                n == self.springs@.len(),
                i == u,
                j == v,
                !self_collision::linked(self@.distance_constraints, u as int, v as int),
                forall|m: int|
                    0 <= m < k ==> !(#[trigger] spring_joins(
                        self.springs@[m],
                        u as int,
                        v as int,
                    )),
        {
            let s = self.springs[k];
            if (s.a == i && s.b == j) || (s.a == j && s.b == i) {
                assert(spring_joins(self.springs@[k as int], u as int, v as int));
                return true;
            }
        }
        false
    }

    fn keep_faces(&self) -> (kept: Vec<[u32; 3]>)
        ensures
            kept@ == self@.triangles.filter(
                whole_faces(self@.distance_constraints, self@.springs),
            ),
    {
        let mut kept: Vec<[u32; 3]> = Vec::new();
        let ghost keep = whole_faces(self@.distance_constraints, self@.springs);
        let n: usize = self.triangles.len();
        proof {
            sequences::lemma_filter_none(self.triangles@, keep);
        }
        for i in 0..n
            invariant
                n == self.triangles@.len(),
                keep == whole_faces(self@.distance_constraints, self@.springs),
                kept@ == self.triangles@.take(i as int).filter(keep),
        {
            let t = self.triangles[i];
            proof {
                sequences::lemma_filter_next(self.triangles@, i as int, keep);
            }
            if self.has_side(t[0], t[1]) && self.has_side(t[1], t[2]) && self.has_side(t[2], t[0]) {
                kept.push(t);
            }
        }
        assert(self.triangles@.take(n as int) == self.triangles@);
        kept
    }

    /// Removes every edge and spring that is stretched beyond the tear strain, and the faces
    /// that lost a side. Does nothing if no tear strain is set.
    pub fn tear(&mut self)
        ensures
            final(self)@ == old(self)@.torn(),
            old(self)@.wf() ==> final(self)@.wf(),
    {
        let limit = match self.tear_strain {
            Some(t) => t,
            None => {
                return;
            },
        };
        self.distance_constraints = keep_edges(&self.particles, &self.distance_constraints, limit);
        self.springs = keep_springs(&self.particles, &self.springs, limit);
        let faces = self.keep_faces();
        self.triangles = faces;
        proof {
            if old(self)@.wf() {
                lemma_torn_wf(old(self)@);
            }
        }
    }
}

/// Tearing leaves a consistent body.
pub proof fn lemma_torn_wf<R: Real>(s: SoftState<R>)
    requires
        s.wf(),
    ensures
        s.torn().wf(),
{
    if let Some(limit) = s.tear_strain {
        let t = s.torn();
        let n = s.particles.len();
        let keep = holding_edges(s.particles, limit);
        assert forall|i: int| 0 <= i < t.distance_constraints.len() implies model::edge_valid(
            #[trigger] t.distance_constraints[i],
            n,
        ) by {
            sequences::lemma_filter_from(s.distance_constraints, keep, i);
        }
        let faces = whole_faces(t.distance_constraints, t.springs);
        assert forall|i: int| 0 <= i < t.triangles.len() implies model::triangle_valid(
            #[trigger] t.triangles[i],
            n,
        ) by {
            sequences::lemma_filter_from(s.triangles, faces, i);
        }
    }
}

/// The rest length after creep: an edge that is there, has a positive rest length and is
/// strained beyond the yield strain takes over a share of its elongation.
pub open spec fn crept<R: Real>(
    ps: Seq<SoftParticle<R>>,
    a: usize,
    b: usize,
    rest: R,
    p: PlasticityParams<R>,
) -> R {
    if a < ps.len() && b < ps.len() && !rest.le(R::zero()) {
        let len = gap(ps[a as int], ps[b as int]);
        if len.sub(rest).div(rest).abs().le(p.yield_strain) {
            rest
        } else {
            rest.add(p.creep.mul(len.sub(rest)))
        }
    } else {
        rest
    }
}

fn creep_of<R: Real>(
    ps: &Vec<SoftParticle<R>>,
    a: usize,
    b: usize,
    rest: R,
    p: PlasticityParams<R>,
) -> (r: R)
    ensures
        r == crept(ps@, a, b, rest, p),
{
    if a < ps.len() && b < ps.len() && !rest.le(R::zero()) {
        let len = gap(ps[a], ps[b]);
        if !len.sub(rest).div(rest).abs().le(p.yield_strain) {
            return rest.add(p.creep.mul(len.sub(rest)));
        }
    }
    rest
}

impl<R: Real> SoftState<R> {
    /// The body with every overstrained edge and spring deformed for good.
    pub open spec fn deformed(self) -> SoftState<R> {
        match self.plasticity {
            Some(p) => if p.creep.le(R::zero()) {
                self
            } else {
                SoftState {
                    distance_constraints: self.distance_constraints.map_values(
                        |c: DistanceConstraint<R>|
                            DistanceConstraint {
                                rest: crept(self.particles, c.a, c.b, c.rest, p),
                                ..c
                            },
                    ),
                    springs: self.springs.map_values(
                        |s: Spring<R>|
                            Spring {
                                rest_length: crept(
                                    self.particles,
                                    s.a,
                                    s.b,
                                    s.rest_length,
                                    p,
                                ),
                                ..s
                            },
                    ),
                    ..self
                }
            },
            None => self,
        }
    }
}

impl<R: Real> SoftBody<R> {
    /// Shifts the rest length of every edge and spring that is strained beyond the yield strain
    /// towards its present length. Does nothing if no plasticity is set or nothing creeps.
    pub fn apply_plasticity(&mut self)
        ensures
            final(self)@ == old(self)@.deformed(),
            old(self)@.wf() ==> final(self)@.wf(),
    {
        let p = match self.plasticity {
            Some(p) => p,
            None => {
                return;
            },
        };
        if p.creep.le(R::zero()) {
            return;
        }
        let ghost before = self@;
        let n: usize = self.distance_constraints.len();
        for i in 0..n
            invariant
                n == self.distance_constraints@.len(),
                n == before.distance_constraints.len(),
                self@ == (SoftState {
                    distance_constraints: self.distance_constraints@,
                    ..before
                }),
                forall|k: int|
                    0 <= k < i ==> #[trigger] self.distance_constraints@[k] == (
                    DistanceConstraint {
                        rest: crept(
                            before.particles,
                            before.distance_constraints[k].a,
                            before.distance_constraints[k].b,
                            before.distance_constraints[k].rest,
                            p,
                        ),
                        ..before.distance_constraints[k]
                    }),
                forall|k: int|
                    i <= k < n ==> #[trigger] self.distance_constraints@[k]
                        == before.distance_constraints[k],
        {
            let c = self.distance_constraints[i];
            self.distance_constraints[i].rest = creep_of(&self.particles, c.a, c.b, c.rest, p);
        }
        let ghost middle = self@;
        let m: usize = self.springs.len();
        for i in 0..m
            invariant
                m == self.springs@.len(),
                m == before.springs.len(),
                middle.particles == before.particles,
                middle.springs == before.springs,
                self@ == (SoftState { springs: self.springs@, ..middle }),
                forall|k: int|
                    0 <= k < i ==> #[trigger] self.springs@[k] == (Spring {
                        rest_length: crept(
                            before.particles,
                            before.springs[k].a,
                            before.springs[k].b,
                            before.springs[k].rest_length,
                            p,
                        ),
                        ..before.springs[k]
                    }),
                forall|k: int| i <= k < m ==> #[trigger] self.springs@[k] == before.springs[k],
        {
            let s = self.springs[i];
            self.springs[i].rest_length = creep_of(&self.particles, s.a, s.b, s.rest_length, p);
        }
        proof {
            assert(self@ =~= before.deformed());
            if before.wf() {
                lemma_deformed_wf(before);
            }
        }
    }
}

/// Creep leaves a consistent body.
pub proof fn lemma_deformed_wf<R: Real>(s: SoftState<R>)
    requires
        s.wf(),
    ensures
        s.deformed().wf(),
{
    let d = s.deformed();
    assert forall|i: int| 0 <= i < d.distance_constraints.len() implies model::edge_valid(
        #[trigger] d.distance_constraints[i],
        s.particles.len(),
    ) by {
        assert(model::edge_valid(s.distance_constraints[i], s.particles.len()));
    }
}

/// The number of a particle once particle `index` is gone.
pub open spec fn lowered(x: int, index: int) -> int {
    if x > index {
        x - 1
    } else {
        x
    }
}

/// An edge once particle `index` is gone.
pub open spec fn edge_lowered<R>(c: DistanceConstraint<R>, index: int) -> DistanceConstraint<R> {
    DistanceConstraint {
        a: lowered(c.a as int, index) as usize,
        b: lowered(c.b as int, index) as usize,
        ..c
    }
}

/// A spring once particle `index` is gone.
pub open spec fn spring_lowered<R>(s: Spring<R>, index: int) -> Spring<R> {
    Spring { a: lowered(s.a as int, index) as usize, b: lowered(s.b as int, index) as usize, ..s }
}

/// Whether a volume element has particle `index` as a corner.
pub open spec fn tetra_has(t: [u32; 4], index: int) -> bool {
    t[0] == index || t[1] == index || t[2] == index || t[3] == index
}

/// A volume element once particle `index` is gone.
pub open spec fn tetra_lowered(t: [u32; 4], index: int) -> [u32; 4] {
    [
        lowered(t[0] as int, index) as u32,
        lowered(t[1] as int, index) as u32,
        lowered(t[2] as int, index) as u32,
        lowered(t[3] as int, index) as u32,
    ]
}

/// Whether a face has particle `index` as a corner.
pub open spec fn triangle_has(t: [u32; 3], index: int) -> bool {
    t[0] == index || t[1] == index || t[2] == index
}

/// A face once particle `index` is gone.
pub open spec fn triangle_lowered(t: [u32; 3], index: int) -> [u32; 3] {
    [
        lowered(t[0] as int, index) as u32,
        lowered(t[1] as int, index) as u32,
        lowered(t[2] as int, index) as u32,
    ]
}

/// Those of the first `n` edges that do not touch particle `index`, with their ends renumbered.
pub open spec fn edges_without<R>(
    edges: Seq<DistanceConstraint<R>>,
    index: int,
    n: nat,
) -> Seq<DistanceConstraint<R>>
    decreases n,
{
    if n == 0 {
        Seq::empty()
    } else {
        let before = edges_without(edges, index, (n - 1) as nat);
        let c = edges[n - 1];
        if c.a == index || c.b == index {
            before
        } else {
            before.push(edge_lowered(c, index))
        }
    }
}

/// Those of the first `n` springs that do not touch particle `index`, with their ends renumbered.
pub open spec fn springs_without<R>(springs: Seq<Spring<R>>, index: int, n: nat) -> Seq<Spring<R>>
    decreases n,
{
    if n == 0 {
        Seq::empty()
    } else {
        let before = springs_without(springs, index, (n - 1) as nat);
        let s = springs[n - 1];
        if s.a == index || s.b == index {
            before
        } else {
            before.push(spring_lowered(s, index))
        }
    }
}

/// Those of the first `n` volume elements that do not touch particle `index`, with their corners
/// renumbered.
pub open spec fn tetras_without(tets: Seq<[u32; 4]>, index: int, n: nat) -> Seq<[u32; 4]>
    decreases n,
{
    if n == 0 {
        Seq::empty()
    } else {
        let before = tetras_without(tets, index, (n - 1) as nat);
        if tetra_has(tets[n - 1], index) {
            before
        } else {
            before.push(tetra_lowered(tets[n - 1], index))
        }
    }
}

/// The rest volumes of the elements that [`tetras_without`] keeps.
pub open spec fn rests_without<R>(tets: Seq<[u32; 4]>, rests: Seq<R>, index: int, n: nat) -> Seq<R>
    decreases n,
{
    if n == 0 {
        Seq::empty()
    } else {
        let before = rests_without(tets, rests, index, (n - 1) as nat);
        if tetra_has(tets[n - 1], index) {
            before
        } else {
            before.push(rests[n - 1])
        }
    }
}

/// Those of the first `n` faces that do not touch particle `index`, with their corners
/// renumbered.
pub open spec fn triangles_without(tris: Seq<[u32; 3]>, index: int, n: nat) -> Seq<[u32; 3]>
    decreases n,
{
    if n == 0 {
        Seq::empty()
    } else {
        let before = triangles_without(tris, index, (n - 1) as nat);
        if triangle_has(tris[n - 1], index) {
            before
        } else {
            before.push(triangle_lowered(tris[n - 1], index))
        }
    }
}

impl<R: Real> SoftState<R> {
    /// The body without particle `index` and without everything that touches it. Later particles
    /// move up by one, and what refers to them is renumbered.
    pub open spec fn without_particle(self, index: int) -> SoftState<R> {
        SoftState {
            particles: self.particles.remove(index),
            springs: springs_without(self.springs, index, self.springs.len()),
            distance_constraints: edges_without(
                self.distance_constraints,
                index,
                self.distance_constraints.len(),
            ),
            tetrahedra: tetras_without(self.tetrahedra, index, self.tetrahedra.len()),
            tetra_rest_volumes: rests_without(
                self.tetrahedra,
                self.tetra_rest_volumes,
                index,
                self.tetra_rest_volumes.len(),
            ),
            triangles: triangles_without(self.triangles, index, self.triangles.len()),
            ..self
        }
    }
}

/// A number that is renumbered for the loss of a particle still names the same particle.
pub proof fn lemma_lowered_names_same<R>(ps: Seq<SoftParticle<R>>, index: int, x: int)
    requires
        0 <= index < ps.len(),
        0 <= x < ps.len(),
        x != index,
    ensures
        0 <= lowered(x, index) < ps.remove(index).len(),
        ps.remove(index)[lowered(x, index)] == ps[x],
{
}

proof fn lemma_edges_without_valid<R>(
    edges: Seq<DistanceConstraint<R>>,
    index: int,
    n: nat,
    count: nat,
)
    requires
        n <= edges.len(),
        0 <= index < count,
        forall|i: int| 0 <= i < edges.len() ==> model::edge_valid(#[trigger] edges[i], count),
    ensures
        forall|i: int|
            0 <= i < edges_without(edges, index, n).len() ==> model::edge_valid(
                #[trigger] edges_without(edges, index, n)[i],
                (count - 1) as nat,
            ),
    decreases n,
{
    if n > 0 {
        lemma_edges_without_valid(edges, index, (n - 1) as nat, count);
        let before = edges_without(edges, index, (n - 1) as nat);
        let after = edges_without(edges, index, n);
        assert(model::edge_valid(edges[n - 1], count));
        assert forall|i: int| 0 <= i < after.len() implies model::edge_valid(
            #[trigger] after[i],
            (count - 1) as nat,
        ) by {
            if i < before.len() {
                assert(after[i] == before[i]);
            }
        }
    }
}

proof fn lemma_tetras_without_valid<R>(
    tets: Seq<[u32; 4]>,
    rests: Seq<R>,
    index: int,
    n: nat,
    count: nat,
)
    requires
        n <= tets.len(),
        0 <= index < count,
        forall|i: int| 0 <= i < tets.len() ==> model::tetra_valid(#[trigger] tets[i], count),
    ensures
        tetras_without(tets, index, n).len() == rests_without(tets, rests, index, n).len(),
        forall|i: int|
            0 <= i < tetras_without(tets, index, n).len() ==> model::tetra_valid(
                #[trigger] tetras_without(tets, index, n)[i],
                (count - 1) as nat,
            ),
    decreases n,
{
    if n > 0 {
        lemma_tetras_without_valid(tets, rests, index, (n - 1) as nat, count);
        let before = tetras_without(tets, index, (n - 1) as nat);
        let after = tetras_without(tets, index, n);
        assert(model::tetra_valid(tets[n - 1], count));
        assert forall|i: int| 0 <= i < after.len() implies model::tetra_valid(
            #[trigger] after[i],
            (count - 1) as nat,
        ) by {
            if i < before.len() {
                assert(after[i] == before[i]);
            }
        }
    }
}

proof fn lemma_triangles_without_valid(tris: Seq<[u32; 3]>, index: int, n: nat, count: nat)
    requires
        n <= tris.len(),
        0 <= index < count,
        forall|i: int| 0 <= i < tris.len() ==> model::triangle_valid(#[trigger] tris[i], count),
    ensures
        forall|i: int|
            0 <= i < triangles_without(tris, index, n).len() ==> model::triangle_valid(
                #[trigger] triangles_without(tris, index, n)[i],
                (count - 1) as nat,
            ),
    decreases n,
{
    if n > 0 {
        lemma_triangles_without_valid(tris, index, (n - 1) as nat, count);
        let before = triangles_without(tris, index, (n - 1) as nat);
        let after = triangles_without(tris, index, n);
        assert(model::triangle_valid(tris[n - 1], count));
        assert forall|i: int| 0 <= i < after.len() implies model::triangle_valid(
            #[trigger] after[i],
            (count - 1) as nat,
        ) by {
            if i < before.len() {
                assert(after[i] == before[i]);
            }
        }
    }
}

/// Removing a particle leaves a consistent body.
pub proof fn lemma_without_particle_wf<R: Real>(s: SoftState<R>, index: int)
    requires
        s.wf(),
        0 <= index < s.particles.len(),
    ensures
        s.without_particle(index).wf(),
{
    let n = s.particles.len();
    lemma_edges_without_valid(
        s.distance_constraints,
        index,
        s.distance_constraints.len(),
        n,
    );
    lemma_tetras_without_valid(
        s.tetrahedra,
        s.tetra_rest_volumes,
        index,
        s.tetrahedra.len(),
        n,
    );
    lemma_triangles_without_valid(s.triangles, index, s.triangles.len(), n);
}

fn lower(x: usize, index: usize) -> (r: usize)
    ensures
        r == lowered(x as int, index as int),
{
    if x > index {
        x - 1
    } else {
        x
    }
}

fn lower_corner(x: u32, index: usize) -> (r: u32)
    ensures
        r == lowered(x as int, index as int),
{
    if x as usize > index {
        x - 1
    } else {
        x
    }
}

impl<R: Real> SoftBody<R> {
    fn drop_springs(&self, index: usize) -> (out: Vec<Spring<R>>)
        ensures
            out@ == springs_without(self@.springs, index as int, self@.springs.len()),
    {
        let mut out: Vec<Spring<R>> = Vec::new();
        let n: usize = self.springs.len();
        for i in 0..n
            invariant
                n == self.springs@.len(),
                out@ == springs_without(self@.springs, index as int, i as nat),
        {
            let s = self.springs[i];
            if s.a != index && s.b != index {
                out.push(
                    Spring {
                        a: lower(s.a, index),
                        b: lower(s.b, index),
                        rest_length: s.rest_length,
                        stiffness: s.stiffness,
                        damping: s.damping,
                    },
                );
            }
        }
        out
    }

    fn drop_edges(&self, index: usize) -> (out: Vec<DistanceConstraint<R>>)
        ensures
            out@ == edges_without(
                self@.distance_constraints,
                index as int,
                self@.distance_constraints.len(),
            ),
    {
        let mut out: Vec<DistanceConstraint<R>> = Vec::new();
        let n: usize = self.distance_constraints.len();
        for i in 0..n
            invariant
                n == self.distance_constraints@.len(),
                out@ == edges_without(self@.distance_constraints, index as int, i as nat),
        {
            let c = self.distance_constraints[i];
            if c.a != index && c.b != index {
                out.push(
                    DistanceConstraint {
                        a: lower(c.a, index),
                        b: lower(c.b, index),
                        rest: c.rest,
                        compliance: c.compliance,
                        compression: c.compression,
                    },
                );
            }
        }
        out
    }

    fn drop_tetras(&self, index: usize) -> (out: Vec<[u32; 4]>)
        ensures
            out@ == tetras_without(self@.tetrahedra, index as int, self@.tetrahedra.len()),
    {
        let mut out: Vec<[u32; 4]> = Vec::new();
        let n: usize = self.tetrahedra.len();
        for i in 0..n
            invariant
                n == self.tetrahedra@.len(),
                out@ == tetras_without(self@.tetrahedra, index as int, i as nat),
        {
            let t = self.tetrahedra[i];
            if t[0] as usize != index && t[1] as usize != index && t[2] as usize != index
                && t[3] as usize != index {
                let low: [u32; 4] = [
                    lower_corner(t[0], index),
                    lower_corner(t[1], index),
                    lower_corner(t[2], index),
                    lower_corner(t[3], index),
                ];
                assert(low =~= tetra_lowered(t, index as int));
                out.push(low);
            }
        }
        out
    }

    fn drop_rests(&self, index: usize) -> (out: Vec<R>)
        requires
            self@.tetra_rest_volumes.len() <= self@.tetrahedra.len(),
        ensures
            out@ == rests_without(
                self@.tetrahedra,
                self@.tetra_rest_volumes,
                index as int,
                self@.tetra_rest_volumes.len(),
            ),
    {
        let mut out: Vec<R> = Vec::new();
        let n: usize = self.tetra_rest_volumes.len();
        for i in 0..n
            invariant
                n == self.tetra_rest_volumes@.len(),
                n <= self.tetrahedra@.len(),
                out@ == rests_without(
                    self@.tetrahedra,
                    self@.tetra_rest_volumes,
                    index as int,
                    i as nat,
                ),
        {
            let t = self.tetrahedra[i];
            if t[0] as usize != index && t[1] as usize != index && t[2] as usize != index
                && t[3] as usize != index {
                out.push(self.tetra_rest_volumes[i]);
            }
        }
        out
    }

    fn drop_triangles(&self, index: usize) -> (out: Vec<[u32; 3]>)
        ensures
            out@ == triangles_without(self@.triangles, index as int, self@.triangles.len()),
    {
        let mut out: Vec<[u32; 3]> = Vec::new();
        let n: usize = self.triangles.len();
        for i in 0..n
            invariant
                n == self.triangles@.len(),
                out@ == triangles_without(self@.triangles, index as int, i as nat),
        {
            let t = self.triangles[i];
            if t[0] as usize != index && t[1] as usize != index && t[2] as usize != index {
                let low: [u32; 3] = [
                    lower_corner(t[0], index),
                    lower_corner(t[1], index),
                    lower_corner(t[2], index),
                ];
                assert(low =~= triangle_lowered(t, index as int));
                out.push(low);
            }
        }
        out
    }

    /// Removes a particle with the springs, edges, volume elements and faces that touch it, and
    /// renumbers what is left. Fails, without effect, if there is no such particle.
    pub fn remove_particle(&mut self, index: usize) -> (removed: bool)
        requires
            old(self)@.tetra_rest_volumes.len() <= old(self)@.tetrahedra.len(),
        ensures
            removed == (index < old(self)@.particles.len()),
            final(self)@ == (if removed {
                old(self)@.without_particle(index as int)
            } else {
                old(self)@
            }),
            old(self)@.wf() ==> final(self)@.wf(),
    {
        if index >= self.particles.len() {
            return false;
        }
        proof {
            if self@.wf() {
                lemma_without_particle_wf(self@, index as int);
            }
        }
        let springs = self.drop_springs(index);
        let edges = self.drop_edges(index);
        let tets = self.drop_tetras(index);
        let rests = self.drop_rests(index);
        let triangles = self.drop_triangles(index);
        self.particles.remove(index);
        self.springs = springs;
        self.distance_constraints = edges;
        self.tetrahedra = tets;
        self.tetra_rest_volumes = rests;
        self.triangles = triangles;
        true
    }
}

} // verus!
