//! Splitting volume elements into smaller ones.
use vstd::prelude::*;
use crate::dynamics::soft_body::model;
use crate::dynamics::soft_body::model::{SoftBody, SoftParticle, SoftState};
use crate::exact;
use crate::exact::{exact, total};
use crate::math::Vector;
use crate::scalar::Real;

verus! {

pub open spec fn spec_longest_edge<R: Real>(
    a: Vector<R>,
    b: Vector<R>,
    c: Vector<R>,
    d: Vector<R>,
) -> R {
    a.sub(b).length().max(a.sub(c).length()).max(a.sub(d).length()).max(b.sub(c).length()).max(
        b.sub(d).length(),
    ).max(c.sub(d).length())
}

/// The length of the longest edge of a tetrahedron.
#[verifier::when_used_as_spec(spec_longest_edge)]
pub fn longest_edge<R: Real>(a: Vector<R>, b: Vector<R>, c: Vector<R>, d: Vector<R>) -> (r: R)
    ensures
        r == spec_longest_edge(a, b, c, d),
{
    a.sub(b).length().max(a.sub(c).length()).max(a.sub(d).length()).max(b.sub(c).length()).max(
        b.sub(d).length(),
    ).max(c.sub(d).length())
}

/// The particle in the middle of four others: at their mean position, with the mean of their
/// reciprocal masses, at rest.
pub open spec fn middle<R: Real>(
    a: SoftParticle<R>,
    b: SoftParticle<R>,
    c: SoftParticle<R>,
    d: SoftParticle<R>,
) -> SoftParticle<R> {
    SoftParticle {
        inv_mass: a.inv_mass.add(b.inv_mass).add(c.inv_mass).add(d.inv_mass).mul(
            R::decimal(25, 2),
        ),
        ..SoftParticle::spec_new(a.pos.add(b.pos).add(c.pos).add(d.pos).scale(R::decimal(25, 2)))
    }
}

/// A body while its volume elements are being split.
#[verifier::ext_equal]
pub ghost struct Refined<R> {
    /// The particles, with one more at the end for every split.
    pub particles: Seq<SoftParticle<R>>,
    /// The new volume elements.
    pub tetrahedra: Seq<[u32; 4]>,
    /// Their rest volumes.
    pub rests: Seq<R>,
    /// How many elements were split.
    pub splits: nat,
}

/// Whether a volume element has to be split: always if there is no finite limit, else if its
/// longest edge is beyond the limit.
pub open spec fn too_long<R: Real>(ps: Seq<SoftParticle<R>>, t: [u32; 4], limit: R) -> bool {
    !(limit.is_finite() && longest_edge(
        ps[t[0] as int].pos,
        ps[t[1] as int].pos,
        ps[t[2] as int].pos,
        ps[t[3] as int].pos,
    ).le(limit))
}

/// The four parts of a volume element around the new particle `m`. Their corners are ordered such
/// that the signed volume of each has the sign of the whole.
pub open spec fn parts(t: [u32; 4], m: u32) -> Seq<[u32; 4]> {
    seq![
        [m, t[0], t[2], t[1]],
        [m, t[0], t[1], t[3]],
        [m, t[0], t[3], t[2]],
        [m, t[1], t[2], t[3]],
    ]
}

/// One more element, kept or split into four of a quarter of its rest volume.
pub open spec fn element_refined<R: Real>(
    s: Refined<R>,
    t: [u32; 4],
    rest: R,
    limit: R,
) -> Refined<R> {
    if too_long(s.particles, t, limit) {
        let quarter = rest.mul(R::decimal(25, 2));
        Refined {
            particles: s.particles.push(
                middle(
                    s.particles[t[0] as int],
                    s.particles[t[1] as int],
                    s.particles[t[2] as int],
                    s.particles[t[3] as int],
                ),
            ),
            tetrahedra: s.tetrahedra + parts(t, s.particles.len() as u32),
            rests: s.rests + seq![quarter, quarter, quarter, quarter],
            splits: s.splits + 1,
        }
    } else {
        Refined { tetrahedra: s.tetrahedra.push(t), rests: s.rests.push(rest), ..s }
    }
}

impl<R: Real> SoftState<R> {
    /// The first `n` volume elements kept or split, in their order.
    pub open spec fn refined(self, limit: R, n: nat) -> Refined<R>
        decreases n,
    {
        if n == 0 {
            Refined {
                particles: self.particles,
                tetrahedra: Seq::empty(),
                rests: Seq::empty(),
                splits: 0,
            }
        } else {
            element_refined(
                self.refined(limit, (n - 1) as nat),
                self.tetrahedra[n - 1],
                self.tetra_rest_volumes[n - 1],
                limit,
            )
        }
    }

    /// The body with its volume elements split.
    pub open spec fn subdivided(self, limit: R) -> SoftState<R> {
        let r = self.refined(limit, self.tetrahedra.len());
        if self.tetrahedra.len() == 0 {
            self
        } else {
            SoftState {
                particles: r.particles,
                tetrahedra: r.tetrahedra,
                tetra_rest_volumes: r.rests,
                ..self
            }
        }
    }
}

/// Every split adds one particle and three volume elements, the particles that were there stay
/// as they are, and every new element joins particles of the body and has a rest volume.
pub proof fn lemma_refined_consistent<R: Real>(s: SoftState<R>, limit: R, n: nat)
    requires
        s.tetras_there(s.tetrahedra.len()),
        n <= s.tetrahedra.len(),
        s.particles.len() + s.tetrahedra.len() <= u32::MAX + 1,
    ensures
        s.refined(limit, n).splits <= n,
        s.refined(limit, n).particles.len() == s.particles.len() + s.refined(limit, n).splits,
        s.refined(limit, n).particles.take(s.particles.len() as int) == s.particles,
        s.refined(limit, n).tetrahedra.len() == n + 3 * s.refined(limit, n).splits,
        s.refined(limit, n).rests.len() == s.refined(limit, n).tetrahedra.len(),
        forall|i: int|
            0 <= i < s.refined(limit, n).tetrahedra.len() ==> model::tetra_valid(
                #[trigger] s.refined(limit, n).tetrahedra[i],
                s.refined(limit, n).particles.len(),
            ),
    decreases n,
{
    let r = s.refined(limit, n);
    if n > 0 {
        lemma_refined_consistent(s, limit, (n - 1) as nat);
        let p = s.refined(limit, (n - 1) as nat);
        let t = s.tetrahedra[n - 1];
        assert(model::tetra_valid(t, s.particles.len()));
        assert(r.particles.take(s.particles.len() as int) =~= p.particles.take(
            s.particles.len() as int,
        ));
        assert forall|i: int| 0 <= i < r.tetrahedra.len() implies model::tetra_valid(
            #[trigger] r.tetrahedra[i],
            r.particles.len(),
        ) by {
            if i < p.tetrahedra.len() {
                assert(r.tetrahedra[i] == p.tetrahedra[i]);
                assert(model::tetra_valid(p.tetrahedra[i], p.particles.len()));
            } else if too_long(p.particles, t, limit) {
                assert(r.tetrahedra[i] == parts(t, p.particles.len() as u32)[i
                    - p.tetrahedra.len()]);
            }
        }
    } else {
        assert(r.particles.take(s.particles.len() as int) =~= s.particles);
    }
}

/// Splitting volume elements leaves a consistent body.
pub proof fn lemma_subdivided_wf<R: Real>(s: SoftState<R>, limit: R)
    requires
        s.wf(),
        s.particles.len() + s.tetrahedra.len() <= u32::MAX + 1,
    ensures
        s.subdivided(limit).wf(),
{
    lemma_refined_consistent(s, limit, s.tetrahedra.len());
    let t = s.subdivided(limit);
    assert forall|i: int| 0 <= i < t.distance_constraints.len() implies model::edge_valid(
        #[trigger] t.distance_constraints[i],
        t.particles.len(),
    ) by {
        assert(model::edge_valid(s.distance_constraints[i], s.particles.len()));
    }
    assert forall|i: int| 0 <= i < t.triangles.len() implies model::triangle_valid(
        #[trigger] t.triangles[i],
        t.particles.len(),
    ) by {
        assert(model::triangle_valid(s.triangles[i], s.particles.len()));
    }
}

impl<R: Real> SoftBody<R> {
    /// Splits every volume element whose longest edge is beyond the limit into four around a new
    /// particle in its middle; splits all of them if the limit is not finite. Returns how many
    /// were split. Edges, springs and faces stay.
    pub fn subdivide_tetrahedra(&mut self, max_edge_len: R) -> (splits: usize)
        requires
            old(self)@.tetras_there(old(self)@.tetrahedra.len()),
            old(self)@.tetrahedra.len() <= old(self)@.tetra_rest_volumes.len(),
            old(self)@.particles.len() + old(self)@.tetrahedra.len() <= u32::MAX + 1,
        ensures
            final(self)@ == old(self)@.subdivided(max_edge_len),
            splits == old(self)@.refined(max_edge_len, old(self)@.tetrahedra.len()).splits,
            old(self)@.wf() ==> final(self)@.wf(),
    {
        let ghost start = self@;
        if self.tetrahedra.len() == 0 {
            return 0;
        }
        let adaptive = max_edge_len.is_finite();
        let mut tets: Vec<[u32; 4]> = Vec::new();
        let mut rests: Vec<R> = Vec::new();
        let mut splits: usize = 0;
        let n: usize = self.tetrahedra.len();
        for k in 0..n
            invariant
                n == start.tetrahedra.len(),
                start.tetras_there(n as nat),
                n <= start.tetra_rest_volumes.len(),
                start.particles.len() + start.tetrahedra.len() <= u32::MAX + 1,
                adaptive == max_edge_len.spec_is_finite(),
                self@ == (SoftState { particles: self.particles@, ..start }),
                splits <= k,
                start.refined(max_edge_len, k as nat) == (Refined {
                    particles: self.particles@,
                    tetrahedra: tets@,
                    rests: rests@,
                    splits: splits as nat,
                }),
        {
            let t = self.tetrahedra[k];
            let rest = self.tetra_rest_volumes[k];
            proof {
                lemma_refined_consistent(start, max_edge_len, k as nat);
                assert(model::tetra_valid(start.tetrahedra[k as int], start.particles.len()));
            }
            let a = self.particles[t[0] as usize];
            let b = self.particles[t[1] as usize];
            let c = self.particles[t[2] as usize];
            let d = self.particles[t[3] as usize];
            if adaptive && longest_edge(a.pos, b.pos, c.pos, d.pos).le(max_edge_len) {
                tets.push(t);
                rests.push(rest);
            } else {
                let ghost before = tets@;
                let ghost rests_before = rests@;
                let quarter = R::decimal(25, 2);
                let mut m = SoftParticle::new(
                    a.pos.add(b.pos).add(c.pos).add(d.pos).scale(quarter),
                );
                m.inv_mass =
                a.inv_mass.add(b.inv_mass).add(c.inv_mass).add(d.inv_mass).mul(quarter);
                let index: u32 = self.particles.len() as u32;
                self.particles.push(m);
                let sub_rest = rest.mul(quarter);
                tets.push([index, t[0], t[2], t[1]]);
                tets.push([index, t[0], t[1], t[3]]);
                tets.push([index, t[0], t[3], t[2]]);
                tets.push([index, t[1], t[2], t[3]]);
                rests.push(sub_rest);
                rests.push(sub_rest);
                rests.push(sub_rest);
                rests.push(sub_rest);
                splits = splits + 1;
                assert(tets@ =~= before + parts(t, index));
                assert(rests@ =~= rests_before + seq![sub_rest, sub_rest, sub_rest, sub_rest]);
            }
        }
        self.tetrahedra = tets;
        self.tetra_rest_volumes = rests;
        proof {
            if start.wf() {
                lemma_subdivided_wf(start, max_edge_len);
            }
        }
        splits
    }
}

/// Whether four quarters are one.
pub open spec fn has_quarters<R: Real>() -> bool {
    let q = R::decimal(25, 2);
    q.add(q).add(q).add(q) == R::one()
}

proof fn lemma_four_quarters<R: Real>(s: R, rest: R)
    requires
        exact::<R>(),
        has_quarters::<R>(),
    ensures
        ({
            let q = rest.mul(R::decimal(25, 2));
            s.add(q).add(q).add(q).add(q) == s.add(rest)
        }),
{
    let c = R::decimal(25, 2);
    let q = rest.mul(c);
    exact::lemma_mul_distributes(rest, c.add(c).add(c), c);
    exact::lemma_mul_distributes(rest, c.add(c), c);
    exact::lemma_mul_distributes(rest, c, c);
    exact::lemma_mul_one(rest);
    assert(q.add(q).add(q).add(q) == rest);
    exact::lemma_add_associates(s, q, q);
    exact::lemma_add_associates(s, q.add(q), q);
    exact::lemma_add_associates(s, q.add(q).add(q), q);
}

/// Where arithmetic is exact and four quarters are one, splitting keeps the sum of the rest
/// volumes.
pub proof fn lemma_splitting_keeps_rest_sum<R: Real>(s: SoftState<R>, limit: R, n: nat)
    requires
        exact::<R>(),
        has_quarters::<R>(),
        n <= s.tetra_rest_volumes.len(),
    ensures
        total(|i: int| s.refined(limit, n).rests[i], s.refined(limit, n).rests.len()) == total(
            |i: int| s.tetra_rest_volumes[i],
            n,
        ),
    decreases n,
{
    if n > 0 {
        lemma_splitting_keeps_rest_sum(s, limit, (n - 1) as nat);
        let before = s.refined(limit, (n - 1) as nat).rests;
        let after = s.refined(limit, n).rests;
        let rest = s.tetra_rest_volumes[n - 1];
        let (f, g) = (|i: int| before[i], |i: int| after[i]);
        let whole = |i: int| s.tetra_rest_volumes[i];
        let m = before.len();
        exact::lemma_total_same(g, f, m);
        assert(total(whole, n) == total(whole, (n - 1) as nat).add(rest));
        if after.len() == m + 4 {
            let q = rest.mul(R::decimal(25, 2));
            let at = m as int;
            assert(g(at) == q && g(at + 1) == q && g(at + 2) == q && g(at + 3) == q);
            assert(total(g, m + 4) == total(g, m).add(q).add(q).add(q).add(q)) by {
                assert(total(g, m + 1) == total(g, m).add(g(at)));
                assert(total(g, m + 2) == total(g, m + 1).add(g(at + 1)));
                assert(total(g, m + 3) == total(g, m + 2).add(g(at + 2)));
            }
            lemma_four_quarters(total(f, m), rest);
        } else {
            assert(g(m as int) == rest);
        }
    }
}

} // verus!
