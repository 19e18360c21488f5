//! Projections that move particles towards a length or a volume, and friction between them.
use vstd::prelude::*;
use crate::dynamics::soft_body::model;
use crate::dynamics::soft_body::model::{SoftBody, SoftParticle};
use crate::math::Vector;
use crate::scalar::Real;

verus! {

/// Particles and the multiplier of a constraint once it is projected.
pub ghost struct Projected<R> {
    /// The particles.
    pub particles: Seq<SoftParticle<R>>,
    /// The sum of the corrections so far.
    pub lambda: R,
}

/// The projection of a length: both ends move along the axis, each by its weight, until the
/// length is `rest`, less what the compliance `alpha` gives.
pub open spec fn distance_projected<R: Real>(
    ps: Seq<SoftParticle<R>>,
    a: int,
    b: int,
    rest: R,
    alpha: R,
    w: Seq<R>,
    lambda: R,
) -> Projected<R> {
    let delta = ps[a].pos.sub(ps[b].pos);
    let len = delta.length();
    let w_sum = w[a].add(w[b]);
    if len.equals(R::zero()) || w_sum.equals(R::zero()) {
        Projected { particles: ps, lambda }
    } else {
        let n = delta.div(len);
        let d_lambda = len.sub(rest).neg().sub(alpha.mul(lambda)).div(w_sum.add(alpha));
        let first = if w[a].equals(R::zero()) {
            ps
        } else {
            model::moved(ps, a, n.scale(w[a].mul(d_lambda)))
        };
        Projected {
            particles: if w[b].equals(R::zero()) {
                first
            } else {
                model::moved_back(first, b, n.scale(w[b].mul(d_lambda)))
            },
            lambda: lambda.add(d_lambda),
        }
    }
}

/// Projects the length between two particles, and adds the correction to the multiplier.
pub fn solve_distance_constraint<R: Real>(
    particles: &mut Vec<SoftParticle<R>>,
    a: usize,
    b: usize,
    rest: R,
    alpha: R,
    w: &Vec<R>,
    lambda: &mut R,
)
    requires
        a < old(particles)@.len(),
        b < old(particles)@.len(),
        w@.len() == old(particles)@.len(),
    ensures
        final(particles)@ == distance_projected(
            old(particles)@,
            a as int,
            b as int,
            rest,
            alpha,
            w@,
            *old(lambda),
        ).particles,
        *final(lambda) == distance_projected(
            old(particles)@,
            a as int,
            b as int,
            rest,
            alpha,
            w@,
            *old(lambda),
        ).lambda,
{
    let delta = particles[a].pos.sub(particles[b].pos);
    let len = delta.length();
    if len.equals(R::zero()) {
        return;
    }
    let n = delta.div(len);
    let wa = w[a];
    let wb = w[b];
    let w_sum = wa.add(wb);
    if w_sum.equals(R::zero()) {
        return;
    }
    let d_lambda = len.sub(rest).neg().sub(alpha.mul(*lambda)).div(w_sum.add(alpha));
    *lambda = lambda.add(d_lambda);
    if !wa.equals(R::zero()) {
        particles[a].pos = particles[a].pos.add(n.scale(wa.mul(d_lambda)));
    }
    if !wb.equals(R::zero()) {
        particles[b].pos = particles[b].pos.sub(n.scale(wb.mul(d_lambda)));
    }
}

pub open spec fn spec_signed_tetra_volume<R: Real>(
    p0: Vector<R>,
    p1: Vector<R>,
    p2: Vector<R>,
    p3: Vector<R>,
) -> R {
    p1.sub(p0).cross(p2.sub(p0)).dot(p3.sub(p0)).div(R::decimal(6, 0))
}

/// The signed volume of a tetrahedron.
#[verifier::when_used_as_spec(spec_signed_tetra_volume)]
pub fn signed_tetra_volume<R: Real>(
    p0: Vector<R>,
    p1: Vector<R>,
    p2: Vector<R>,
    p3: Vector<R>,
) -> (v: R)
    ensures
        v == spec_signed_tetra_volume(p0, p1, p2, p3),
{
    p1.sub(p0).cross(p2.sub(p0)).dot(p3.sub(p0)).div(R::decimal(6, 0))
}

pub open spec fn spec_volume_gradient<R: Real>(
    e1: Vector<R>,
    e2: Vector<R>,
    e3: Vector<R>,
    corner: u32,
) -> Vector<R> {
    let six = R::decimal(6, 0);
    if corner == 0 {
        e2.cross(e3).div(six.neg())
    } else if corner == 1 {
        e3.cross(e1).div(six)
    } else if corner == 2 {
        e1.cross(e2).div(six)
    } else {
        e1.cross(e3).div(six.neg())
    }
}

/// The direction in which the volume projection moves a corner of a tetrahedron, from the three
/// edges `e1`, `e2`, `e3` at its first corner: `−(e2×e3)/6`, `(e3×e1)/6`, `(e1×e2)/6` and
/// `−(e1×e3)/6`.
#[verifier::when_used_as_spec(spec_volume_gradient)]
pub fn volume_gradient<R: Real>(
    e1: Vector<R>,
    e2: Vector<R>,
    e3: Vector<R>,
    corner: u32,
) -> (g: Vector<R>)
    ensures
        g == spec_volume_gradient(e1, e2, e3, corner),
{
    let six = R::decimal(6, 0);
    if corner == 0 {
        e2.cross(e3).div(six.neg())
    } else if corner == 1 {
        e3.cross(e1).div(six)
    } else if corner == 2 {
        e1.cross(e2).div(six)
    } else {
        e1.cross(e3).div(six.neg())
    }
}

/// The particles with one moved along `g` by its weight, unless that is zero.
pub open spec fn nudged<R: Real>(
    ps: Seq<SoftParticle<R>>,
    i: int,
    g: Vector<R>,
    w: R,
    d_lambda: R,
) -> Seq<SoftParticle<R>> {
    if w.equals(R::zero()) {
        ps
    } else {
        model::moved(ps, i, g.scale(w.mul(d_lambda)))
    }
}

/// The projection of a volume: every corner moves along its own direction, by its weight and in
/// proportion to how far the signed volume is off `rest`, less what the compliance `alpha` gives.
pub open spec fn volume_projected<R: Real>(
    ps: Seq<SoftParticle<R>>,
    t: [u32; 4],
    rest: R,
    alpha: R,
    w: Seq<R>,
    lambda: R,
) -> Projected<R> {
    let p0 = ps[t[0] as int].pos;
    let e1 = ps[t[1] as int].pos.sub(p0);
    let e2 = ps[t[2] as int].pos.sub(p0);
    let e3 = ps[t[3] as int].pos.sub(p0);
    let g0 = volume_gradient(e1, e2, e3, 0);
    let g1 = volume_gradient(e1, e2, e3, 1);
    let g2 = volume_gradient(e1, e2, e3, 2);
    let g3 = volume_gradient(e1, e2, e3, 3);
    let w0 = w[t[0] as int];
    let w1 = w[t[1] as int];
    let w2 = w[t[2] as int];
    let w3 = w[t[3] as int];
    let denom = alpha.add(w0.mul(g0.dot(g0))).add(w1.mul(g1.dot(g1))).add(w2.mul(g2.dot(g2))).add(
        w3.mul(g3.dot(g3)),
    );
    if denom.equals(R::zero()) {
        Projected { particles: ps, lambda }
    } else {
        let off = e1.cross(e2).dot(e3).div(R::decimal(6, 0)).sub(rest);
        let d = off.neg().sub(alpha.mul(lambda)).div(denom);
        let q0 = nudged(ps, t[0] as int, g0, w0, d);
        let q1 = nudged(q0, t[1] as int, g1, w1, d);
        let q2 = nudged(q1, t[2] as int, g2, w2, d);
        Projected {
            particles: nudged(q2, t[3] as int, g3, w3, d),
            lambda: lambda.add(d),
        }
    }
}

fn nudge<R: Real>(particles: &mut Vec<SoftParticle<R>>, i: usize, g: Vector<R>, w: R, d_lambda: R)
    requires
        i < old(particles)@.len(),
    ensures
        final(particles)@ == nudged(old(particles)@, i as int, g, w, d_lambda),
{
    if !w.equals(R::zero()) {
        particles[i].pos = particles[i].pos.add(g.scale(w.mul(d_lambda)));
    }
}

/// Projects the volume of a tetrahedron, and adds the correction to the multiplier.
pub fn solve_volume_constraint<R: Real>(
    particles: &mut Vec<SoftParticle<R>>,
    tet: [u32; 4],
    rest_vol: R,
    alpha: R,
    w: &Vec<R>,
    lambda: &mut R,
)
    requires
        model::tetra_valid(tet, old(particles)@.len()),
        w@.len() == old(particles)@.len(),
    ensures
        final(particles)@ == volume_projected(
            old(particles)@,
            tet,
            rest_vol,
            alpha,
            w@,
            *old(lambda),
        ).particles,
        *final(lambda) == volume_projected(
            old(particles)@,
            tet,
            rest_vol,
            alpha,
            w@,
            *old(lambda),
        ).lambda,
{
    let i0: usize = tet[0] as usize;
    let i1: usize = tet[1] as usize;
    let i2: usize = tet[2] as usize;
    let i3: usize = tet[3] as usize;
    let p0 = particles[i0].pos;
    let e1 = particles[i1].pos.sub(p0);
    let e2 = particles[i2].pos.sub(p0);
    let e3 = particles[i3].pos.sub(p0);
    let off = e1.cross(e2).dot(e3).div(R::decimal(6, 0)).sub(rest_vol);
    let g0 = volume_gradient(e1, e2, e3, 0);
    let g1 = volume_gradient(e1, e2, e3, 1);
    let g2 = volume_gradient(e1, e2, e3, 2);
    let g3 = volume_gradient(e1, e2, e3, 3);
    let denom = alpha.add(w[i0].mul(g0.dot(g0))).add(w[i1].mul(g1.dot(g1))).add(
        w[i2].mul(g2.dot(g2)),
    ).add(w[i3].mul(g3.dot(g3)));
    if denom.equals(R::zero()) {
        return;
    }
    let d_lambda = off.neg().sub(alpha.mul(*lambda)).div(denom);
    *lambda = lambda.add(d_lambda);
    nudge(particles, i0, g0, w[i0], d_lambda);
    nudge(particles, i1, g1, w[i1], d_lambda);
    nudge(particles, i2, g2, w[i2], d_lambda);
    nudge(particles, i3, g3, w[i3], d_lambda);
}

pub open spec fn spec_slip<R: Real>(a: SoftParticle<R>, b: SoftParticle<R>, mu: R) -> Option<
    Vector<R>,
> {
    let delta = a.pos.sub(b.pos);
    let len = delta.length();
    if a.inv_mass.add(b.inv_mass).equals(R::zero()) || len.lt(R::decimal(1, 12)) {
        None
    } else {
        let n = delta.div(len);
        let v_rel = a.vel.sub(b.vel);
        Some(v_rel.sub(n.scale(v_rel.dot(n))).scale(mu))
    }
}

/// The part of the relative velocity of two particles that friction `mu` removes: that share of
/// what is tangential to the line between them. There is none if neither can move or they
/// coincide.
#[verifier::when_used_as_spec(spec_slip)]
pub fn slip<R: Real>(a: SoftParticle<R>, b: SoftParticle<R>, mu: R) -> (r: Option<Vector<R>>)
    ensures
        r == spec_slip(a, b, mu),
{
    let delta = a.pos.sub(b.pos);
    let len = delta.length();
    if a.inv_mass.add(b.inv_mass).equals(R::zero()) {
        return None;
    }
    if len.lt(R::decimal(1, 12)) {
        return None;
    }
    let n = delta.div(len);
    let v_rel = a.vel.sub(b.vel);
    Some(v_rel.sub(n.scale(v_rel.dot(n))).scale(mu))
}

/// The first of two particles after friction: it loses a share of `corr` by its weight.
pub open spec fn slowed<R: Real>(
    a: SoftParticle<R>,
    b: SoftParticle<R>,
    corr: Vector<R>,
) -> SoftParticle<R> {
    SoftParticle {
        vel: a.vel.sub(corr.scale(a.inv_mass.div(a.inv_mass.add(b.inv_mass)))),
        ..a
    }
}

/// The second of two particles after friction: it gains a share of `corr` by its weight.
pub open spec fn dragged<R: Real>(
    a: SoftParticle<R>,
    b: SoftParticle<R>,
    corr: Vector<R>,
) -> SoftParticle<R> {
    SoftParticle {
        vel: b.vel.add(corr.scale(b.inv_mass.div(a.inv_mass.add(b.inv_mass)))),
        ..b
    }
}

/// The particles after friction between two of them.
pub open spec fn friction_at<R: Real>(
    ps: Seq<SoftParticle<R>>,
    i: int,
    j: int,
    mu: R,
) -> Seq<SoftParticle<R>> {
    match slip(ps[i], ps[j], mu) {
        Some(corr) => ps.update(i, slowed(ps[i], ps[j], corr)).update(
            j,
            dragged(ps[i], ps[j], corr),
        ),
        None => ps,
    }
}

/// The particles after friction at the first `n` contacts.
pub open spec fn friction_applied<R: Real>(
    ps: Seq<SoftParticle<R>>,
    contacts: Seq<(usize, usize)>,
    mu: R,
    n: nat,
) -> Seq<SoftParticle<R>>
    decreases n,
{
    if n == 0 {
        ps
    } else {
        friction_at(
            friction_applied(ps, contacts, mu, (n - 1) as nat),
            contacts[n - 1].0 as int,
            contacts[n - 1].1 as int,
            mu,
        )
    }
}

/// Takes the share `mu` of the tangential relative velocity away from two different particles.
pub fn damp_contact_velocity<R: Real>(ps: &mut Vec<SoftParticle<R>>, i: usize, j: usize, mu: R)
    requires
        i < old(ps)@.len(),
        j < old(ps)@.len(),
        i != j,
    ensures
        final(ps)@ == friction_at(old(ps)@, i as int, j as int, mu),
{
    let a = ps[i];
    let b = ps[j];
    if let Some(corr) = slip(a, b, mu) {
        let w_sum = a.inv_mass.add(b.inv_mass);
        ps[i].vel = a.vel.sub(corr.scale(a.inv_mass.div(w_sum)));
        ps[j].vel = b.vel.add(corr.scale(b.inv_mass.div(w_sum)));
    }
}

/// Takes the share `mu` of the tangential relative velocity away from particles of two bodies.
pub fn damp_contact_velocity_split<R: Real>(
    pa: &mut Vec<SoftParticle<R>>,
    pb: &mut Vec<SoftParticle<R>>,
    i: usize,
    j: usize,
    mu: R,
)
    requires
        i < old(pa)@.len(),
        j < old(pb)@.len(),
    ensures
        final(pa)@ == (match slip(old(pa)@[i as int], old(pb)@[j as int], mu) {
            Some(corr) => old(pa)@.update(
                i as int,
                slowed(old(pa)@[i as int], old(pb)@[j as int], corr),
            ),
            None => old(pa)@,
        }),
        final(pb)@ == (match slip(old(pa)@[i as int], old(pb)@[j as int], mu) {
            Some(corr) => old(pb)@.update(
                j as int,
                dragged(old(pa)@[i as int], old(pb)@[j as int], corr),
            ),
            None => old(pb)@,
        }),
{
    let a = pa[i];
    let b = pb[j];
    if let Some(corr) = slip(a, b, mu) {
        let w_sum = a.inv_mass.add(b.inv_mass);
        pa[i].vel = a.vel.sub(corr.scale(a.inv_mass.div(w_sum)));
        pb[j].vel = b.vel.add(corr.scale(b.inv_mass.div(w_sum)));
    }
}

/// Every contact is between two different ones of `n` particles.
pub open spec fn contacts_valid(contacts: Seq<(usize, usize)>, n: nat) -> bool {
    forall|k: int|
        0 <= k < contacts.len() ==> (#[trigger] contacts[k]).0 < contacts[k].1 && contacts[k].1 < n
}

/// Applies friction at every contact in turn.
pub fn damp_contacts<R: Real>(
    ps: &mut Vec<SoftParticle<R>>,
    contacts: &Vec<(usize, usize)>,
    mu: R,
)
    requires
        contacts_valid(contacts@, old(ps)@.len()),
    ensures
        final(ps)@ == friction_applied(old(ps)@, contacts@, mu, contacts@.len()),
        final(ps)@.len() == old(ps)@.len(),
{
    let n: usize = contacts.len();
    for k in 0..n
        invariant
            n == contacts@.len(),
            contacts_valid(contacts@, ps@.len()),
            ps@.len() == old(ps)@.len(),
            ps@ == friction_applied(old(ps)@, contacts@, mu, k as nat),
    {
        let (i, j) = contacts[k];
        assert(contacts@[k as int].0 < contacts@[k as int].1);
        damp_contact_velocity(ps, i, j, mu);
    }
}

/// The sum of the magnitudes of the signed volumes of the first `n` volume elements.
pub open spec fn volume_sum<R: Real>(ps: Seq<SoftParticle<R>>, tets: Seq<[u32; 4]>, n: nat) -> R
    decreases n,
{
    if n == 0 {
        R::zero()
    } else {
        let t = tets[n - 1];
        volume_sum(ps, tets, (n - 1) as nat).add(
            signed_tetra_volume(
                ps[t[0] as int].pos,
                ps[t[1] as int].pos,
                ps[t[2] as int].pos,
                ps[t[3] as int].pos,
            ).abs(),
        )
    }
}

impl<R: Real> SoftBody<R> {
    /// How much volume the volume elements take: the sum of the magnitudes of their signed
    /// volumes.
    pub fn total_volume(&self) -> (v: R)
        requires
            self@.tetras_there(self@.tetrahedra.len()),
        ensures
            v == volume_sum(self@.particles, self@.tetrahedra, self@.tetrahedra.len()),
    {
        let mut total = R::zero();
        let n: usize = self.tetrahedra.len();
        for i in 0..n
            invariant
                n == self.tetrahedra@.len(),
                self@.tetras_there(n as nat),
                total == volume_sum(self@.particles, self@.tetrahedra, i as nat),
        {
            let t = self.tetrahedra[i];
            assert(model::tetra_valid(self@.tetrahedra[i as int], self@.particles.len()));
            let volume = signed_tetra_volume(
                self.particles[t[0] as usize].pos,
                self.particles[t[1] as usize].pos,
                self.particles[t[2] as usize].pos,
                self.particles[t[3] as usize].pos,
            );
            total = total.add(volume.abs());
        }
        total
    }
}

} // verus!
