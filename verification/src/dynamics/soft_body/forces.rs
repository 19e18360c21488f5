//! The forces on the particles of a soft body, and the integrator that follows them.
use vstd::prelude::*;
use crate::dynamics::soft_body::model::{SoftBody, SoftParticle, SoftState, Spring, Wind};
use crate::exact;
use crate::exact::{exact, total};
use crate::math::Vector;
use crate::scalar::Real;

verus! {

/// No force on any of `n` particles.
pub open spec fn no_forces<R: Real>(n: nat) -> Seq<Vector<R>> {
    Seq::new(n, |i: int| Vector::zero())
}

fn zero_forces<R: Real>(n: usize) -> (out: Vec<Vector<R>>)
    ensures
        out@ == no_forces::<R>(n as nat),
{
    let mut out: Vec<Vector<R>> = Vec::new();
    for i in 0..n
        invariant
            out@ == no_forces::<R>(i as nat),
    {
        out.push(Vector::zero());
    }
    out
}

/// The forces with `f` added to particle `i`.
pub open spec fn pushed_at<R: Real>(out: Seq<Vector<R>>, i: int, f: Vector<R>) -> Seq<Vector<R>> {
    out.update(i, out[i].add(f))
}

/// Whether a spring has both ends among the particles, and an axis.
pub open spec fn spring_acts<R: Real>(ps: Seq<SoftParticle<R>>, s: Spring<R>) -> bool {
    s.a < ps.len() && s.b < ps.len() && !ps[s.b as int].pos.sub(
        ps[s.a as int].pos,
    ).length().equals(R::zero())
}

/// No spring ends at particle `i`.
pub open spec fn unattached<R>(springs: Seq<Spring<R>>, i: int) -> bool {
    forall|k: int|
        0 <= k < springs.len() ==> (#[trigger] springs[k]).a != i && springs[k].b != i
}

/// The force with which a spring pulls its first end: elongation times stiffness plus elongation
/// rate times damping, along the axis.
pub open spec fn spring_pull<R: Real>(ps: Seq<SoftParticle<R>>, s: Spring<R>) -> Vector<R> {
    let a = ps[s.a as int];
    let b = ps[s.b as int];
    let delta = b.pos.sub(a.pos);
    let len = delta.length();
    let dir = delta.div(len);
    dir.scale(
        s.stiffness.mul(len.sub(s.rest_length)).add(s.damping.mul(b.vel.sub(a.vel).dot(dir))),
    )
}

/// The forces with those of one spring: its ends are pulled in opposite directions, a pinned
/// end is not pulled at all.
pub open spec fn with_spring<R: Real>(
    out: Seq<Vector<R>>,
    ps: Seq<SoftParticle<R>>,
    s: Spring<R>,
) -> Seq<Vector<R>> {
    if spring_acts(ps, s) {
        let f = spring_pull(ps, s);
        let first = if ps[s.a as int].is_pinned() {
            out
        } else {
            pushed_at(out, s.a as int, f)
        };
        if ps[s.b as int].is_pinned() {
            first
        } else {
            first.update(s.b as int, first[s.b as int].sub(f))
        }
    } else {
        out
    }
}

/// The forces of the first `n` springs.
pub open spec fn spring_forces<R: Real>(
    ps: Seq<SoftParticle<R>>,
    springs: Seq<Spring<R>>,
    n: nat,
) -> Seq<Vector<R>>
    decreases n,
{
    if n == 0 {
        no_forces(ps.len())
    } else {
        with_spring(spring_forces(ps, springs, (n - 1) as nat), ps, springs[n - 1])
    }
}

/// The sum of the first `n` positions.
pub open spec fn position_sum<R: Real>(ps: Seq<SoftParticle<R>>, n: nat) -> Vector<R>
    decreases n,
{
    if n == 0 {
        Vector::zero()
    } else {
        position_sum(ps, (n - 1) as nat).add(ps[n - 1].pos)
    }
}

/// The mean of the positions.
pub open spec fn centroid<R: Real>(ps: Seq<SoftParticle<R>>) -> Vector<R> {
    if ps.len() == 0 {
        Vector::zero()
    } else {
        position_sum(ps, ps.len()).div(R::from_usize(ps.len() as usize))
    }
}

/// Twice the area of a face, as a vector along its normal.
pub open spec fn face_normal<R: Real>(ps: Seq<SoftParticle<R>>, t: [u32; 3]) -> Vector<R> {
    let a = ps[t[0] as int].pos;
    ps[t[1] as int].pos.sub(a).cross(ps[t[2] as int].pos.sub(a))
}

/// Whether a face has its corners among the particles, and an area.
pub open spec fn face_acts<R: Real>(ps: Seq<SoftParticle<R>>, t: [u32; 3]) -> bool {
    t[0] < ps.len() && t[1] < ps.len() && t[2] < ps.len() && !face_normal(ps, t).length().mul(
        R::decimal(5, 1),
    ).le(R::zero())
}

/// What a face under pressure does to each of its corners: the pressure times its area, along its
/// normal, away from `center`.
pub open spec fn face_push<R: Real>(
    ps: Seq<SoftParticle<R>>,
    t: [u32; 3],
    center: Vector<R>,
    pressure: R,
) -> Vector<R> {
    let n = face_normal(ps, t);
    let area = n.length().mul(R::decimal(5, 1));
    let n_hat = n.normalize();
    let middle = ps[t[0] as int].pos.add(ps[t[1] as int].pos).add(ps[t[2] as int].pos).div(
        R::decimal(3, 0),
    );
    let outward = if R::zero().le(middle.sub(center).dot(n_hat)) {
        n_hat
    } else {
        n_hat.neg()
    };
    outward.scale(pressure.mul(area))
}

/// The forces with the pressure on one face.
pub open spec fn with_face<R: Real>(
    out: Seq<Vector<R>>,
    ps: Seq<SoftParticle<R>>,
    t: [u32; 3],
    center: Vector<R>,
    pressure: R,
) -> Seq<Vector<R>> {
    if face_acts(ps, t) {
        let f = face_push(ps, t, center, pressure);
        pushed_at(pushed_at(pushed_at(out, t[0] as int, f), t[1] as int, f), t[2] as int, f)
    } else {
        out
    }
}

/// The pressure on the first `n` faces.
pub open spec fn face_forces<R: Real>(
    ps: Seq<SoftParticle<R>>,
    faces: Seq<[u32; 3]>,
    pressure: R,
    n: nat,
) -> Seq<Vector<R>>
    decreases n,
{
    if n == 0 {
        no_forces(ps.len())
    } else {
        with_face(
            face_forces(ps, faces, pressure, (n - 1) as nat),
            ps,
            faces[n - 1],
            centroid(ps),
            pressure,
        )
    }
}

impl<R: Real> SoftState<R> {
    /// The spring force on every particle.
    pub open spec fn spring_forces(self) -> Seq<Vector<R>> {
        spring_forces(self.particles, self.springs, self.springs.len())
    }

    /// The pressure force on every particle.
    pub open spec fn pressure_forces(self) -> Seq<Vector<R>> {
        match self.pressure {
            Some(p) => face_forces(self.particles, self.triangles, p, self.triangles.len()),
            None => no_forces(self.particles.len()),
        }
    }

    /// The total force on particle `i`: gravity, wind, pressure and springs, in that order. A
    /// particle that is anchored to a rigid body gets none.
    pub open spec fn total_force(self, i: int) -> Vector<R> {
        total_force(
            self.particles[i],
            self.gravity,
            self.wind,
            self.pressure_forces()[i],
            self.spring_forces()[i],
        )
    }

    /// The body with the force of every particle computed.
    pub open spec fn forces_computed(self) -> SoftState<R> {
        SoftState {
            particles: Seq::new(
                self.particles.len(),
                |i: int| SoftParticle { force: self.total_force(i), ..self.particles[i] },
            ),
            ..self
        }
    }

    /// The body with every particle advanced by `dt`.
    pub open spec fn integrated(self, dt: R) -> SoftState<R> {
        SoftState {
            particles: Seq::new(
                self.particles.len(),
                |i: int| advanced(self.particles[i], R::one().sub(self.damping), dt),
            ),
            ..self
        }
    }
}

/// The total force on a particle.
pub open spec fn total_force<R: Real>(
    p: SoftParticle<R>,
    gravity: Vector<R>,
    wind: Option<Wind<R>>,
    pressure: Vector<R>,
    spring: Vector<R>,
) -> Vector<R> {
    if p.bound_body is Some {
        Vector::zero()
    } else {
        let weight = if p.is_pinned() {
            Vector::zero()
        } else {
            gravity.scale(p.mass())
        };
        let blown = match wind {
            Some(w) => weight.add(w.accel.scale(p.mass())).sub(p.vel.scale(p.mass().mul(w.drag))),
            None => weight,
        };
        blown.add(pressure).add(spring)
    }
}

/// A particle after one semi-implicit step: the velocity follows the force and loses all but
/// `keep` of itself, then the position follows the velocity. Pinned and anchored particles stay.
pub open spec fn advanced<R: Real>(p: SoftParticle<R>, keep: R, dt: R) -> SoftParticle<R> {
    if !p.is_free() {
        p
    } else {
        let pushed = p.vel.add(p.force.scale(dt.mul(p.inv_mass)));
        let vel = if keep.lt(R::one()) {
            pushed.scale(keep)
        } else {
            pushed
        };
        SoftParticle { vel, pos: p.pos.add(vel.scale(dt)), ..p }
    }
}

/// The kinetic energy of the first `n` particles.
pub open spec fn energy<R: Real>(ps: Seq<SoftParticle<R>>, n: nat) -> R
    decreases n,
{
    if n == 0 {
        R::zero()
    } else {
        let before = energy(ps, (n - 1) as nat);
        let p = ps[n - 1];
        if p.is_pinned() {
            before
        } else {
            before.add(R::decimal(5, 1).mul(p.mass()).mul(p.vel.dot(p.vel)))
        }
    }
}

impl<R: Real> SoftBody<R> {
    /// The spring force on every particle, without gravity. Pinned particles get none.
    pub fn spring_damping_forces(&self) -> (out: Vec<Vector<R>>)
        ensures
            out@ == self@.spring_forces(),
            out@.len() == self@.particles.len(),
    {
        let count: usize = self.particles.len();
        let mut out = zero_forces(count);
        let n: usize = self.springs.len();
        for k in 0..n
            invariant
                n == self.springs@.len(),
                count == self.particles@.len(),
                out@ == spring_forces(self.particles@, self.springs@, k as nat),
                out@.len() == count,
        {
            let s = self.springs[k];
            if s.a < count && s.b < count {
                let a = self.particles[s.a];
                let b = self.particles[s.b];
                let delta = b.pos.sub(a.pos);
                let len = delta.length();
                if !len.equals(R::zero()) {
                    let dir = delta.div(len);
                    let f = dir.scale(
                        s.stiffness.mul(len.sub(s.rest_length)).add(
                            s.damping.mul(b.vel.sub(a.vel).dot(dir)),
                        ),
                    );
                    if !a.is_pinned() {
                        out[s.a] = out[s.a].add(f);
                    }
                    if !b.is_pinned() {
                        out[s.b] = out[s.b].sub(f);
                    }
                }
            }
        }
        out
    }

    fn center(&self) -> (c: Vector<R>)
        ensures
            c == centroid(self.particles@),
    {
        let n: usize = self.particles.len();
        if n == 0 {
            return Vector::zero();
        }
        let mut sum = Vector::zero();
        for i in 0..n
            invariant
                n == self.particles@.len(),
                sum == position_sum(self.particles@, i as nat),
        {
            sum = sum.add(self.particles[i].pos);
        }
        sum.div(R::from_usize(n))
    }

    /// The pressure force on every particle: each face pushes its corners away from the centre
    /// of the body.
    pub fn pressure_forces(&self) -> (out: Vec<Vector<R>>)
        ensures
            out@ == self@.pressure_forces(),
            out@.len() == self@.particles.len(),
    {
        let count: usize = self.particles.len();
        let mut out = zero_forces(count);
        if let Some(p) = self.pressure {
            let center = self.center();
            let n: usize = self.triangles.len();
            for k in 0..n
                invariant
                    n == self.triangles@.len(),
                    count == self.particles@.len(),
                    center == centroid(self.particles@),
                    out@ == face_forces(self.particles@, self.triangles@, p, k as nat),
                    out@.len() == count,
            {
                let t = self.triangles[k];
                let ia: usize = t[0] as usize;
                let ib: usize = t[1] as usize;
                let ic: usize = t[2] as usize;
                if ia < count && ib < count && ic < count {
                    let a = self.particles[ia].pos;
                    let b = self.particles[ib].pos;
                    let c = self.particles[ic].pos;
                    let normal = b.sub(a).cross(c.sub(a));
                    let area = normal.length().mul(R::decimal(5, 1));
                    if !area.le(R::zero()) {
                        let n_hat = normal.normalize();
                        let middle = a.add(b).add(c).div(R::decimal(3, 0));
                        let outward = if R::zero().le(middle.sub(center).dot(n_hat)) {
                            n_hat
                        } else {
                            n_hat.neg()
                        };
                        let f = outward.scale(p.mul(area));
                        out[ia] = out[ia].add(f);
                        out[ib] = out[ib].add(f);
                        out[ic] = out[ic].add(f);
                    }
                }
            }
        }
        out
    }

    /// Computes the force on every particle from gravity, wind, pressure and springs. Particles
    /// that are anchored to a rigid body get none; their spring forces act on that body.
    pub fn compute_forces(&mut self)
        ensures
            final(self)@ == old(self)@.forces_computed(),
    {
        let spring = self.spring_damping_forces();
        let pressure = self.pressure_forces();
        let gravity = self.gravity;
        let wind = self.wind;
        let n: usize = self.particles.len();
        let ghost before = self@;
        for i in 0..n
            invariant
                n == self.particles@.len(),
                n == before.particles.len(),
                self@ == (SoftState { particles: self.particles@, ..before }),
                spring@ == before.spring_forces(),
                pressure@ == before.pressure_forces(),
                spring@.len() == n,
                pressure@.len() == n,
                gravity == before.gravity,
                wind == before.wind,
                forall|k: int|
                    0 <= k < i ==> #[trigger] self.particles@[k] == (SoftParticle {
                        force: before.total_force(k),
                        ..before.particles[k]
                    }),
                forall|k: int|
                    i <= k < n ==> #[trigger] self.particles@[k] == before.particles[k],
        {
            let p = self.particles[i];
            let mut force = Vector::zero();
            if p.bound_body.is_none() {
                if !p.is_pinned() {
                    force = gravity.scale(p.mass());
                }
                if let Some(w) = wind {
                    force = force.add(w.accel.scale(p.mass()));
                    force = force.sub(p.vel.scale(p.mass().mul(w.drag)));
                }
                force = force.add(pressure[i]);
                force = force.add(spring[i]);
            }
            assert(force == before.total_force(i as int));
            self.particles[i].force = force;
        }
        assert(self.particles@ == before.forces_computed().particles);
    }

    /// Advances velocities, then positions, by `dt`. Particles that are pinned or anchored to a
    /// rigid body stay.
    pub fn integrate(&mut self, dt: R)
        ensures
            final(self)@ == old(self)@.integrated(dt),
    {
        let keep = R::one().sub(self.damping);
        let n: usize = self.particles.len();
        let ghost before = self@;
        for i in 0..n
            invariant
                n == self.particles@.len(),
                n == before.particles.len(),
                self@ == (SoftState { particles: self.particles@, ..before }),
                keep == R::spec_one().sub(before.damping),
                forall|k: int|
                    0 <= k < i ==> #[trigger] self.particles@[k] == advanced(
                        before.particles[k],
                        keep,
                        dt,
                    ),
                forall|k: int|
                    i <= k < n ==> #[trigger] self.particles@[k] == before.particles[k],
        {
            let p = self.particles[i];
            if p.is_free() {
                let mut vel = p.vel.add(p.force.scale(dt.mul(p.inv_mass)));
                if keep.lt(R::one()) {
                    vel = vel.scale(keep);
                }
                self.particles[i].vel = vel;
                self.particles[i].pos = p.pos.add(vel.scale(dt));
            }
        }
        assert(self.particles@ == before.integrated(dt).particles);
    }

    /// The kinetic energy of the particles that can move.
    pub fn kinetic_energy(&self) -> (e: R)
        ensures
            e == energy(self@.particles, self@.particles.len()),
    {
        let mut total = R::zero();
        let n: usize = self.particles.len();
        for i in 0..n
            invariant
                n == self.particles@.len(),
                total == energy(self.particles@, i as nat),
        {
            let p = self.particles[i];
            if !p.is_pinned() {
                total = total.add(R::decimal(5, 1).mul(p.mass()).mul(p.vel.dot(p.vel)));
            }
        }
        total
    }
}

proof fn lemma_unpulled<R: Real>(
    ps: Seq<SoftParticle<R>>,
    springs: Seq<Spring<R>>,
    n: nat,
    i: int,
)
    requires
        n <= springs.len(),
        0 <= i < ps.len(),
        ps[i].is_pinned() || unattached(springs, i),
    ensures
        spring_forces(ps, springs, n).len() == ps.len(),
        spring_forces(ps, springs, n)[i] == Vector::<R>::spec_zero(),
    decreases n,
{
    if n > 0 {
        lemma_unpulled(ps, springs, (n - 1) as nat, i);
        assert(!ps[i].is_pinned() ==> springs[n - 1].a != i && springs[n - 1].b != i);
    }
}

/// Springs pull nothing but their movable ends: a pinned particle, and one that is on no spring,
/// gets no spring force at all.
pub proof fn lemma_springs_pull_their_ends<R: Real>(s: SoftState<R>, i: int)
    requires
        0 <= i < s.particles.len(),
        s.particles[i].is_pinned() || unattached(s.springs, i),
    ensures
        s.spring_forces()[i] == Vector::<R>::spec_zero(),
{
    lemma_unpulled(s.particles, s.springs, s.springs.len(), i);
}

/// The sum of forces.
pub open spec fn force_sum<R: Real>(out: Seq<Vector<R>>) -> Vector<R> {
    Vector {
        x: total(|i: int| out[i].x, out.len()),
        y: total(|i: int| out[i].y, out.len()),
        z: total(|i: int| out[i].z, out.len()),
    }
}

proof fn lemma_coordinate_sum<R: Real>(
    f: spec_fn(int) -> R,
    g: spec_fn(int) -> R,
    h: spec_fn(int) -> R,
    a: int,
    b: int,
    d: R,
    n: nat,
)
    requires
        exact::<R>(),
        0 <= a < n,
        0 <= b < n,
        g(a) == f(a).add(d),
        forall|k: int| 0 <= k < n && k != a ==> #[trigger] g(k) == f(k),
        h(b) == g(b).sub(d),
        forall|k: int| 0 <= k < n && k != b ==> #[trigger] h(k) == g(k),
    ensures
        total(h, n) == total(f, n),
{
    exact::lemma_total_changed(f, g, a, d, n);
    exact::lemma_sub_is_add(g(b), d);
    exact::lemma_total_changed(g, h, b, d.neg(), n);
    exact::lemma_add_associates(total(f, n), d, d.neg());
    exact::lemma_add_neg(d);
    exact::lemma_add_zero(total(f, n));
}

proof fn lemma_spring_adds_nothing<R: Real>(
    out: Seq<Vector<R>>,
    ps: Seq<SoftParticle<R>>,
    s: Spring<R>,
)
    requires
        exact::<R>(),
        out.len() == ps.len(),
        forall|i: int| 0 <= i < ps.len() ==> !(#[trigger] ps[i]).is_pinned(),
    ensures
        with_spring(out, ps, s).len() == ps.len(),
        force_sum(with_spring(out, ps, s)) == force_sum(out),
{
    if spring_acts(ps, s) {
        let (a, b, n) = (s.a as int, s.b as int, ps.len());
        let f = spring_pull(ps, s);
        let first = pushed_at(out, a, f);
        let last = with_spring(out, ps, s);
        assert(!ps[a].is_pinned() && !ps[b].is_pinned());
        assert(last == first.update(b, first[b].sub(f)));
        lemma_coordinate_sum(
            |i: int| out[i].x,
            |i: int| first[i].x,
            |i: int| last[i].x,
            a,
            b,
            f.x,
            n,
        );
        lemma_coordinate_sum(
            |i: int| out[i].y,
            |i: int| first[i].y,
            |i: int| last[i].y,
            a,
            b,
            f.y,
            n,
        );
        lemma_coordinate_sum(
            |i: int| out[i].z,
            |i: int| first[i].z,
            |i: int| last[i].z,
            a,
            b,
            f.z,
            n,
        );
    }
}

proof fn lemma_springs_add_nothing<R: Real>(
    ps: Seq<SoftParticle<R>>,
    springs: Seq<Spring<R>>,
    n: nat,
)
    requires
        exact::<R>(),
        forall|i: int| 0 <= i < ps.len() ==> !(#[trigger] ps[i]).is_pinned(),
        n <= springs.len(),
    ensures
        spring_forces(ps, springs, n).len() == ps.len(),
        force_sum(spring_forces(ps, springs, n)) == Vector::<R>::spec_zero(),
    decreases n,
{
    if n == 0 {
        let out = no_forces::<R>(ps.len());
        exact::lemma_total_ends(|i: int| out[i].x, 0, ps.len());
        exact::lemma_total_ends(|i: int| out[i].y, 0, ps.len());
        exact::lemma_total_ends(|i: int| out[i].z, 0, ps.len());
    } else {
        lemma_springs_add_nothing(ps, springs, (n - 1) as nat);
        lemma_spring_adds_nothing(spring_forces(ps, springs, (n - 1) as nat), ps, springs[n - 1]);
    }
}

/// Where arithmetic is exact, the spring forces on a body without pinned particles add up to
/// nothing.
pub proof fn lemma_spring_forces_cancel<R: Real>(s: SoftState<R>)
    requires
        exact::<R>(),
        forall|i: int| 0 <= i < s.particles.len() ==> !(#[trigger] s.particles[i]).is_pinned(),
    ensures
        force_sum(s.spring_forces()) == Vector::<R>::spec_zero(),
{
    lemma_springs_add_nothing(s.particles, s.springs, s.springs.len());
}

} // verus!
