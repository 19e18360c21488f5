//! Fluids as clouds of particles with smoothed densities.
//!
//! The kernels are those of smoothed-particle hydrodynamics: one for densities, a spiky one for
//! pressures, and the Laplacian of one for viscosity. Particles are gone through in their order,
//! and nothing but their state enters a step.
use vstd::prelude::*;
use crate::math::Vector;
use crate::scalar::Real;

verus! {

/// A particle of a fluid.
#[derive(Clone, Copy, Debug)]
pub struct FluidParticle<R> {
    /// Position.
    pub pos: Vector<R>,
    /// Velocity.
    pub vel: Vector<R>,
    /// Acceleration of the last step.
    pub accel: Vector<R>,
    /// Mass.
    pub mass: R,
    /// Density around the particle at the last step.
    pub density: R,
    /// Pressure at the last step.
    pub pressure: R,
}

impl<R: Real> FluidParticle<R> {
    pub open spec fn spec_new(pos: Vector<R>, vel: Vector<R>, mass: R) -> FluidParticle<R> {
        FluidParticle {
            pos,
            vel,
            accel: Vector::zero(),
            mass,
            density: R::zero(),
            pressure: R::zero(),
        }
    }

    /// A particle that has not been through a step.
    #[verifier::when_used_as_spec(spec_new)]
    pub fn new(pos: Vector<R>, vel: Vector<R>, mass: R) -> (p: FluidParticle<R>)
        ensures
            p == Self::spec_new(pos, vel, mass),
    {
        FluidParticle {
            pos,
            vel,
            accel: Vector::zero(),
            mass,
            density: R::zero(),
            pressure: R::zero(),
        }
    }
}

/// What a fluid is like.
#[derive(Clone, Copy, Debug)]
pub struct FluidParams<R> {
    /// The distance from which on particles do not act on each other.
    pub smoothing_radius: R,
    /// Pressure per unit of density above the rest density.
    pub gas_constant: R,
    /// The density at which the fluid has no pressure.
    pub rest_density: R,
    /// How strongly velocities even out.
    pub viscosity: R,
    /// How strongly particles are drawn to the middle of those around them.
    pub surface_tension: R,
    /// Acceleration of every particle.
    pub gravity: Vector<R>,
}

impl<R: Real> Default for FluidParams<R> {
    fn default() -> (p: FluidParams<R>)
        ensures
            p == (FluidParams {
                smoothing_radius: R::spec_one(),
                gas_constant: R::spec_decimal(100, 0),
                rest_density: R::spec_decimal(1000, 0),
                viscosity: R::spec_decimal(1, 1),
                surface_tension: R::spec_zero(),
                gravity: Vector::<R>::spec_zero(),
            }),
    {
        FluidParams {
            smoothing_radius: R::one(),
            gas_constant: R::decimal(100, 0),
            rest_density: R::decimal(1000, 0),
            viscosity: R::decimal(1, 1),
            surface_tension: R::zero(),
            gravity: Vector::zero(),
        }
    }
}

/// A cloud of particles of one fluid.
#[derive(Clone, Debug)]
pub struct FluidWorld<R> {
    /// Particles.
    pub particles: Vec<FluidParticle<R>>,
    /// What the fluid is like.
    pub params: FluidParams<R>,
}

pub open spec fn spec_poly6<R: Real>(distance: R, h: R) -> R {
    let diff = h.mul(h).sub(distance.mul(distance));
    if h.le(distance) || diff.le(R::zero()) {
        R::zero()
    } else {
        R::decimal(315, 0).div(R::decimal(64, 0).mul(R::pi()).mul(h.powi(9))).mul(diff.powi(3))
    }
}

/// The weight of a mass at the given distance in a density: `315 / (64 π h⁹) · (h² − r²)³` within
/// the radius `h`, nothing beyond.
#[verifier::when_used_as_spec(spec_poly6)]
pub fn poly6<R: Real>(distance: R, h: R) -> (w: R)
    ensures
        w == spec_poly6(distance, h),
{
    if h.le(distance) {
        return R::zero();
    }
    let diff = h.mul(h).sub(distance.mul(distance));
    if diff.le(R::zero()) {
        return R::zero();
    }
    R::decimal(315, 0).div(R::decimal(64, 0).mul(R::pi()).mul(h.powi(9))).mul(diff.powi(3))
}

pub open spec fn spec_spiky_gradient<R: Real>(offset: Vector<R>, h: R) -> Vector<R> {
    let distance = offset.length();
    if distance.le(R::decimal(1, 9)) || h.le(distance) {
        Vector::zero()
    } else {
        let diff = h.sub(distance);
        offset.neg().div(distance).scale(
            R::decimal(45, 0).div(R::pi().mul(h.powi(6))).mul(diff).mul(diff),
        )
    }
}

/// The slope of the pressure kernel at an offset: `−r̂ · 45 / (π h⁶) · (h − r)²` within the radius
/// `h`, nothing beyond or at the centre.
#[verifier::when_used_as_spec(spec_spiky_gradient)]
pub fn spiky_gradient<R: Real>(offset: Vector<R>, h: R) -> (g: Vector<R>)
    ensures
        g == spec_spiky_gradient(offset, h),
{
    let distance = offset.length();
    if distance.le(R::decimal(1, 9)) || h.le(distance) {
        return Vector::zero();
    }
    let diff = h.sub(distance);
    offset.neg().div(distance).scale(
        R::decimal(45, 0).div(R::pi().mul(h.powi(6))).mul(diff).mul(diff),
    )
}

pub open spec fn spec_viscosity_laplacian<R: Real>(distance: R, h: R) -> R {
    if h.le(distance) {
        R::zero()
    } else {
        R::decimal(45, 0).div(R::pi().mul(h.powi(6))).mul(h.sub(distance))
    }
}

/// The Laplacian of the viscosity kernel: `45 / (π h⁶) · (h − r)` within the radius `h`, nothing
/// beyond.
#[verifier::when_used_as_spec(spec_viscosity_laplacian)]
pub fn viscosity_laplacian<R: Real>(distance: R, h: R) -> (l: R)
    ensures
        l == spec_viscosity_laplacian(distance, h),
{
    if h.le(distance) {
        return R::zero();
    }
    R::decimal(45, 0).div(R::pi().mul(h.powi(6))).mul(h.sub(distance))
}

/// The density at particle `i`: its own mass and those of the other ones of the first `n`
/// particles within the radius, each weighted by its distance.
pub open spec fn density_sum<R: Real>(ps: Seq<FluidParticle<R>>, i: int, h: R, n: nat) -> R
    decreases n,
{
    if n == 0 {
        poly6(R::zero(), h).mul(ps[i].mass)
    } else {
        let before = density_sum(ps, i, h, (n - 1) as nat);
        let d2 = ps[i].pos.sub(ps[n - 1].pos).length_squared();
        if n - 1 != i && d2.lt(h.mul(h)) {
            before.add(ps[n - 1].mass.mul(poly6(d2.sqrt(), h)))
        } else {
            before
        }
    }
}

/// A particle with its density and pressure.
pub open spec fn compressed<R: Real>(
    ps: Seq<FluidParticle<R>>,
    params: FluidParams<R>,
    i: int,
) -> FluidParticle<R> {
    let density = density_sum(ps, i, params.smoothing_radius, ps.len()).max(R::decimal(1, 9));
    FluidParticle {
        density,
        pressure: params.gas_constant.mul(density.sub(params.rest_density)).max(R::zero()),
        ..ps[i]
    }
}

/// All particles with their densities and pressures.
pub open spec fn all_compressed<R: Real>(
    ps: Seq<FluidParticle<R>>,
    params: FluidParams<R>,
) -> Seq<FluidParticle<R>> {
    Seq::new(ps.len(), |i: int| compressed(ps, params, i))
}

/// What the particles around one do to it.
#[derive(Clone, Copy, Debug)]
pub struct Surroundings<R> {
    /// Sum of the pressure terms.
    pub pressure: Vector<R>,
    /// Sum of the viscosity terms.
    pub viscosity: Vector<R>,
    /// Sum of the positions.
    pub positions: Vector<R>,
    /// Number of the particles.
    pub count: usize,
}

impl<R: Real> Surroundings<R> {
    pub open spec fn spec_none() -> Surroundings<R> {
        Surroundings {
            pressure: Vector::zero(),
            viscosity: Vector::zero(),
            positions: Vector::zero(),
            count: 0,
        }
    }

    /// Nothing around.
    #[verifier::when_used_as_spec(spec_none)]
    pub fn none() -> (s: Surroundings<R>)
        ensures
            s == Self::spec_none(),
    {
        Surroundings {
            pressure: Vector::zero(),
            viscosity: Vector::zero(),
            positions: Vector::zero(),
            count: 0,
        }
    }

    pub open spec fn spec_within(p: FluidParticle<R>, q: FluidParticle<R>, h: R) -> bool {
        let d2 = p.pos.sub(q.pos).length_squared();
        !h.mul(h).le(d2) && !d2.le(R::decimal(1, 18))
    }

    /// Whether two particles are within the radius, and not at one place.
    #[verifier::when_used_as_spec(spec_within)]
    pub fn within(p: FluidParticle<R>, q: FluidParticle<R>, h: R) -> (b: bool)
        ensures
            b == Self::spec_within(p, q, h),
    {
        let d2 = p.pos.sub(q.pos).length_squared();
        !h.mul(h).le(d2) && !d2.le(R::decimal(1, 18))
    }

    /// The surroundings of `p` with one more particle.
    pub open spec fn with(self, p: FluidParticle<R>, q: FluidParticle<R>, h: R) -> Surroundings<R> {
        let rij = p.pos.sub(q.pos);
        let shared = p.pressure.div(p.density.mul(p.density)).add(
            q.pressure.div(q.density.mul(q.density)),
        );
        Surroundings {
            pressure: self.pressure.add(spiky_gradient(rij, h).scale(q.mass.mul(shared))),
            viscosity: self.viscosity.add(
                q.vel.sub(p.vel).scale(q.mass).div(q.density).scale(
                    viscosity_laplacian(rij.length_squared().sqrt(), h),
                ),
            ),
            positions: self.positions.add(q.pos),
            count: (self.count + 1) as usize,
        }
    }

    fn add_particle(&mut self, p: FluidParticle<R>, q: FluidParticle<R>, h: R)
        requires
            old(self).count < usize::MAX,
        ensures
            *final(self) == old(self).with(p, q, h),
    {
        let rij = p.pos.sub(q.pos);
        let d = rij.length_squared().sqrt();
        let shared = p.pressure.div(p.density.mul(p.density)).add(
            q.pressure.div(q.density.mul(q.density)),
        );
        self.pressure = self.pressure.add(spiky_gradient(rij, h).scale(q.mass.mul(shared)));
        self.viscosity = self.viscosity.add(
            q.vel.sub(p.vel).scale(q.mass).div(q.density).scale(viscosity_laplacian(d, h)),
        );
        self.positions = self.positions.add(q.pos);
        self.count = self.count + 1;
    }
}

/// The surroundings of particle `i` among the first `n` particles.
pub open spec fn surroundings<R: Real>(
    ps: Seq<FluidParticle<R>>,
    i: int,
    h: R,
    n: nat,
) -> Surroundings<R>
    decreases n,
{
    if n == 0 {
        Surroundings::none()
    } else {
        let before = surroundings(ps, i, h, (n - 1) as nat);
        if n - 1 != i && Surroundings::within(ps[i], ps[n - 1], h) {
            before.with(ps[i], ps[n - 1], h)
        } else {
            before
        }
    }
}

/// The acceleration of a particle: pressure, viscosity, gravity, and the pull of the surface.
pub open spec fn acceleration<R: Real>(
    p: FluidParticle<R>,
    s: Surroundings<R>,
    params: FluidParams<R>,
) -> Vector<R> {
    let a = s.pressure.neg().add(s.viscosity.scale(params.viscosity)).add(params.gravity);
    if R::zero().lt(params.surface_tension) && s.count > 0 {
        a.add(
            s.positions.div(R::from_usize(s.count)).sub(p.pos).scale(params.surface_tension),
        )
    } else {
        a
    }
}

/// A particle after a semi-implicit step: the velocity follows the acceleration, then the
/// position follows the velocity.
pub open spec fn advanced<R: Real>(p: FluidParticle<R>, a: Vector<R>, dt: R) -> FluidParticle<R> {
    let vel = p.vel.add(a.scale(dt));
    FluidParticle { accel: a, vel, pos: p.pos.add(vel.scale(dt)), ..p }
}

/// The particles after a step.
pub open spec fn stepped<R: Real>(
    ps: Seq<FluidParticle<R>>,
    params: FluidParams<R>,
    dt: R,
) -> Seq<FluidParticle<R>> {
    let dense = all_compressed(ps, params);
    Seq::new(
        ps.len(),
        |i: int|
            advanced(
                dense[i],
                acceleration(
                    dense[i],
                    surroundings(dense, i, params.smoothing_radius, ps.len()),
                    params,
                ),
                dt,
            ),
    )
}

impl<R: Real> FluidWorld<R> {
    /// A fluid without particles.
    pub fn new(params: FluidParams<R>) -> (w: FluidWorld<R>)
        ensures
            w.particles@ == Seq::<FluidParticle<R>>::empty(),
            w.params == params,
    {
        FluidWorld { particles: Vec::new(), params }
    }

    /// The number of particles.
    pub fn len(&self) -> (n: usize)
        ensures
            n == self.particles@.len(),
    {
        self.particles.len()
    }

    /// Whether there are no particles.
    pub fn is_empty(&self) -> (b: bool)
        ensures
            b == (self.particles@.len() == 0),
    {
        self.particles.len() == 0
    }

    /// Adds a particle and returns its position in the list.
    pub fn add_particle(&mut self, pos: Vector<R>, vel: Vector<R>, mass: R) -> (index: usize)
        ensures
            index == old(self).particles@.len(),
            final(self).particles@ == old(self).particles@.push(
                FluidParticle::spec_new(pos, vel, mass),
            ),
            final(self).params == old(self).params,
    {
        let index: usize = self.particles.len();
        self.particles.push(FluidParticle::new(pos, vel, mass));
        index
    }

    fn density_at(&self, i: usize) -> (density: R)
        requires
            i < self.particles@.len(),
        ensures
            density == density_sum(
                self.particles@,
                i as int,
                self.params.smoothing_radius,
                self.particles@.len(),
            ),
    {
        let h = self.params.smoothing_radius;
        let p = self.particles[i];
        let mut density = poly6(R::zero(), h).mul(p.mass);
        let n: usize = self.particles.len();
        for j in 0..n
            invariant
                n == self.particles@.len(),
                i < n,
                h == self.params.smoothing_radius,
                p == self.particles@[i as int],
                density == density_sum(self.particles@, i as int, h, j as nat),
        {
            let d2 = p.pos.sub(self.particles[j].pos).length_squared();
            if j != i && d2.lt(h.mul(h)) {
                density = density.add(self.particles[j].mass.mul(poly6(d2.sqrt(), h)));
            }
        }
        density
    }

    fn compress(&mut self)
        ensures
            final(self).particles@ == all_compressed(old(self).particles@, old(self).params),
            final(self).params == old(self).params,
    {
        let n: usize = self.particles.len();
        let params = self.params;
        let ghost ps = self.particles@;
        let mut dense: Vec<FluidParticle<R>> = Vec::new();
        for i in 0..n
            invariant
                n == self.particles@.len(),
                ps == self.particles@,
                params == self.params,
                dense@ == all_compressed(ps, params).take(i as int),
        {
            let density = self.density_at(i).max(R::decimal(1, 9));
            let mut p = self.particles[i];
            p.density = density;
            p.pressure = params.gas_constant.mul(density.sub(params.rest_density)).max(R::zero());
            dense.push(p);
            assert(all_compressed(ps, params).take(i + 1) =~= all_compressed(ps, params).take(
                i as int,
            ).push(compressed(ps, params, i as int)));
        }
        assert(all_compressed(ps, params).take(n as int) =~= all_compressed(ps, params));
        self.particles = dense;
    }

    fn acceleration_of(&self, i: usize) -> (a: Vector<R>)
        requires
            i < self.particles@.len(),
        ensures
            a == acceleration(
                self.particles@[i as int],
                surroundings(
                    self.particles@,
                    i as int,
                    self.params.smoothing_radius,
                    self.particles@.len(),
                ),
                self.params,
            ),
    {
        let h = self.params.smoothing_radius;
        let p = self.particles[i];
        let mut s = Surroundings::none();
        let n: usize = self.particles.len();
        for j in 0..n
            invariant
                n == self.particles@.len(),
                i < n,
                h == self.params.smoothing_radius,
                p == self.particles@[i as int],
                s.count <= j,
                s == surroundings(self.particles@, i as int, h, j as nat),
        {
            let q = self.particles[j];
            if j != i && Surroundings::within(p, q, h) {
                s.add_particle(p, q, h);
            }
        }
        let mut a = s.pressure.neg().add(s.viscosity.scale(self.params.viscosity)).add(
            self.params.gravity,
        );
        if R::zero().lt(self.params.surface_tension) && s.count > 0 {
            let middle = s.positions.div(R::from_usize(s.count));
            a = a.add(middle.sub(p.pos).scale(self.params.surface_tension));
        }
        a
    }

    /// Advances the fluid by `dt`: densities and pressures, then accelerations, then velocities
    /// and positions.
    pub fn step(&mut self, dt: R)
        ensures
            final(self).particles@ == stepped(old(self).particles@, old(self).params, dt),
            final(self).params == old(self).params,
    {
        let n: usize = self.particles.len();
        let ghost before = self.particles@;
        let ghost params = self.params;
        self.compress();
        let ghost dense = self.particles@;
        let mut moved: Vec<FluidParticle<R>> = Vec::new();
        for i in 0..n
            invariant
                n == before.len(),
                self.particles@ == dense,
                dense == all_compressed(before, params),
                self.params == params,
                moved@ == stepped(before, params, dt).take(i as int),
        {
            let a = self.acceleration_of(i);
            let mut p = self.particles[i];
            p.accel = a;
            p.vel = p.vel.add(a.scale(dt));
            p.pos = p.pos.add(p.vel.scale(dt));
            moved.push(p);
            let ghost after = stepped(before, params, dt);
            assert(after.take(i + 1) =~= after.take(i as int).push(after[i as int]));
        }
        assert(stepped(before, params, dt).take(n as int) =~= stepped(before, params, dt));
        self.particles = moved;
    }
}

/// A step adds and removes no particle, and changes no mass.
pub proof fn lemma_step_keeps_masses<R: Real>(
    ps: Seq<FluidParticle<R>>,
    params: FluidParams<R>,
    dt: R,
)
    ensures
        stepped(ps, params, dt).len() == ps.len(),
        forall|i: int|
            0 <= i < ps.len() ==> (#[trigger] stepped(ps, params, dt)[i]).mass == ps[i].mass,
{
}

/// A particle that no other one is near falls freely: its acceleration is gravity, with the
/// vanishing pressure and viscosity terms added to it in their order.
pub proof fn lemma_lone_particle_falls<R: Real>(
    ps: Seq<FluidParticle<R>>,
    params: FluidParams<R>,
    dt: R,
    i: int,
)
    requires
        0 <= i < ps.len(),
        forall|j: int|
            0 <= j < ps.len() && j != i ==> !Surroundings::within(
                all_compressed(ps, params)[i],
                #[trigger] all_compressed(ps, params)[j],
                params.smoothing_radius,
            ),
    ensures
        stepped(ps, params, dt)[i].accel == Vector::<R>::spec_zero().neg().add(
            Vector::zero().scale(params.viscosity),
        ).add(params.gravity),
{
    let dense = all_compressed(ps, params);
    lemma_no_surroundings(dense, i, params.smoothing_radius, ps.len());
}

proof fn lemma_no_surroundings<R: Real>(ps: Seq<FluidParticle<R>>, i: int, h: R, n: nat)
    requires
        n <= ps.len(),
        forall|j: int|
            0 <= j < ps.len() && j != i ==> !Surroundings::within(ps[i], #[trigger] ps[j], h),
    ensures
        surroundings(ps, i, h, n) == Surroundings::<R>::spec_none(),
    decreases n,
{
    if n > 0 {
        lemma_no_surroundings(ps, i, h, (n - 1) as nat);
    }
}

/// The particles after `n` steps.
pub open spec fn run<R: Real>(
    ps: Seq<FluidParticle<R>>,
    params: FluidParams<R>,
    dt: R,
    n: nat,
) -> Seq<FluidParticle<R>>
    decreases n,
{
    if n == 0 {
        ps
    } else {
        stepped(run(ps, params, dt, (n - 1) as nat), params, dt)
    }
}

/// Two runs of the same length from one state end in one state, to the last bit.
pub proof fn lemma_runs_agree<R: Real>(
    ps: Seq<FluidParticle<R>>,
    qs: Seq<FluidParticle<R>>,
    params: FluidParams<R>,
    dt: R,
    n: nat,
)
    requires
        ps == qs,
    ensures
        run(ps, params, dt, n) == run(qs, params, dt, n),
{
}

} // verus!
