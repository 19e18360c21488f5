//! Runs of the particle and body simulations in double precision.
use dynakit::dynamics::ccd::{
    pick_fast, BodyContinuousResult, CCDSolver, ColliderHandle, CollisionEvent, CollisionEventFlags,
    ContinuousReply, ContinuousTask, PseudoHit, SensorProbe,
};
use dynakit::dynamics::fluid::{FluidParams, FluidWorld};
use dynakit::dynamics::force_containers::{ForceContainer, ForceContribution, ForceKind};
use dynakit::dynamics::granular::{GranularParams, GranularWorld};
use dynakit::dynamics::rigid_body::{RigidBody, RigidBodyHandle, RigidBodySet, RigidBodyType};
use dynakit::dynamics::soft_body::{SoftBody, SoftBodySet, Spring, SOFT_SPRING_CUSTOM_ID};
use dynakit::math::{Pose, Rotation, Vector};
use dynakit::geometry::aabb::Aabb;
use dynakit::scalar::Real;
use parry3d_f64::math::{Pose as ParryPose, Vector as ParryVector};
use parry3d_f64::query::sweep_toi::{
    sweep_time_of_impact, Sweep as ParrySweep, SweepToiStatus, ToiProxy,
};

/// A double-precision scalar.
#[derive(Clone, Copy, Debug, PartialEq)]
struct F64(f64);

impl Real for F64 {
    fn zero() -> F64 {
        F64(0.0)
    }
    fn one() -> F64 {
        F64(1.0)
    }
    fn pi() -> F64 {
        F64(std::f64::consts::PI)
    }
    fn infinity() -> F64 {
        F64(f64::INFINITY)
    }
    fn neg_infinity() -> F64 {
        F64(f64::NEG_INFINITY)
    }
    fn decimal(mantissa: i64, digits: u32) -> F64 {
        F64(format!("{}e-{}", mantissa, digits).parse::<f64>().unwrap())
    }
    fn from_usize(n: usize) -> F64 {
        F64(n as f64)
    }
    fn add(self, rhs: F64) -> F64 {
        F64(self.0 + rhs.0)
    }
    fn sub(self, rhs: F64) -> F64 {
        F64(self.0 - rhs.0)
    }
    fn mul(self, rhs: F64) -> F64 {
        F64(self.0 * rhs.0)
    }
    fn div(self, rhs: F64) -> F64 {
        F64(self.0 / rhs.0)
    }
    fn neg(self) -> F64 {
        F64(-self.0)
    }
    fn inv(self) -> F64 {
        F64(if self.0 == 0.0 { 0.0 } else { 1.0 / self.0 })
    }
    fn powi(self, n: i32) -> F64 {
        F64(self.0.powi(n))
    }
    fn sqrt(self) -> F64 {
        F64(self.0.sqrt())
    }
    fn abs(self) -> F64 {
        F64(self.0.abs())
    }
    fn min(self, rhs: F64) -> F64 {
        F64(self.0.min(rhs.0))
    }
    fn max(self, rhs: F64) -> F64 {
        F64(self.0.max(rhs.0))
    }
    fn floor(self) -> i64 {
        self.0.floor() as i64
    }
    fn lt(self, rhs: F64) -> bool {
        self.0 < rhs.0
    }
    fn le(self, rhs: F64) -> bool {
        self.0 <= rhs.0
    }
    fn equals(self, rhs: F64) -> bool {
        self.0 == rhs.0
    }
    fn is_finite(self) -> bool {
        self.0.is_finite()
    }
    fn is_nan(self) -> bool {
        self.0.is_nan()
    }
    fn total_le(self, rhs: F64) -> bool {
        self.0.total_cmp(&rhs.0) != std::cmp::Ordering::Greater
    }
    fn spec_zero() -> F64 {
        F64::zero()
    }
    fn spec_one() -> F64 {
        F64::one()
    }
    fn spec_pi() -> F64 {
        F64::pi()
    }
    fn spec_infinity() -> F64 {
        F64::infinity()
    }
    fn spec_neg_infinity() -> F64 {
        F64::neg_infinity()
    }
    fn spec_decimal(mantissa: i64, digits: u32) -> F64 {
        F64::decimal(mantissa, digits)
    }
    fn spec_from_usize(n: usize) -> F64 {
        F64::from_usize(n)
    }
    fn spec_add(self, rhs: F64) -> F64 {
        self.add(rhs)
    }
    fn spec_sub(self, rhs: F64) -> F64 {
        self.sub(rhs)
    }
    fn spec_mul(self, rhs: F64) -> F64 {
        self.mul(rhs)
    }
    fn spec_div(self, rhs: F64) -> F64 {
        self.div(rhs)
    }
    fn spec_neg(self) -> F64 {
        self.neg()
    }
    fn spec_inv(self) -> F64 {
        self.inv()
    }
    fn spec_powi(self, n: i32) -> F64 {
        self.powi(n)
    }
    fn spec_sqrt(self) -> F64 {
        self.sqrt()
    }
    fn spec_abs(self) -> F64 {
        self.abs()
    }
    fn spec_min(self, rhs: F64) -> F64 {
        self.min(rhs)
    }
    fn spec_max(self, rhs: F64) -> F64 {
        self.max(rhs)
    }
    fn spec_floor(self) -> i64 {
        self.floor()
    }
    fn spec_lt(self, rhs: F64) -> bool {
        self.lt(rhs)
    }
    fn spec_le(self, rhs: F64) -> bool {
        self.le(rhs)
    }
    fn spec_equals(self, rhs: F64) -> bool {
        self.equals(rhs)
    }
    fn spec_is_finite(self) -> bool {
        self.is_finite()
    }
    fn spec_is_nan(self) -> bool {
        self.is_nan()
    }
    fn spec_total_le(self, rhs: F64) -> bool {
        self.total_le(rhs)
    }
    fn law_min_le(_: F64, _: F64, _: F64) {}
    fn law_le_max(_: F64, _: F64, _: F64) {}
    fn law_total_le_total(_: F64, _: F64) {}
    fn law_total_le_transitive(_: F64, _: F64, _: F64) {}
    fn law_zero_one() {}
    fn law_nothing_taken() {}
    fn law_le_itself(_: F64) {}
    fn law_room(_: F64, _: F64, _: i64, _: u32) {}
}

fn v(x: f64, y: f64, z: f64) -> Vector<F64> {
    Vector { x: F64(x), y: F64(y), z: F64(z) }
}

fn distance(a: Vector<F64>, b: Vector<F64>) -> f64 {
    b.sub(a).length().0
}

fn fluid_params() -> FluidParams<F64> {
    FluidParams {
        smoothing_radius: F64(1.0),
        gas_constant: F64(100.0),
        rest_density: F64(1000.0),
        viscosity: F64(0.0),
        surface_tension: F64(0.0),
        gravity: v(0.0, -9.81, 0.0),
    }
}

#[test]
fn sph_single_particle_free_fall_is_analytic() {
    // One particle without neighbours: no pressure, no viscosity, only gravity.
    let mut fw = FluidWorld::new(fluid_params());
    fw.add_particle(v(0.0, 0.0, 0.0), Vector::zero(), F64(1.0));
    let dt = 1.0 / 60.0;
    for _ in 0..60 {
        fw.step(F64(dt));
    }
    let p = &fw.particles[0];
    // The step is first order in time, so after one second it is about 0.082 off the parabola.
    let expected = 0.5 * (-9.81) * 1.0_f64 * 1.0;
    assert!(
        (p.pos.y.0 - expected).abs() < 0.1,
        "free-fall y={} expected about {}",
        p.pos.y.0,
        expected
    );
    assert!(p.pos.y.0 < -4.0, "particle fell downward under gravity");
    assert!(p.pos.x.0.abs() < 1e-12 && p.pos.z.0.abs() < 1e-12);
}

#[test]
fn sph_two_particles_repel_under_compression() {
    // Two unit masses 0.1 apart have a density of about 3.1, above the rest density of 2.
    let mut p = fluid_params();
    p.rest_density = F64(2.0);
    p.gas_constant = F64(200.0);
    p.viscosity = F64(0.0);
    let mut fw = FluidWorld::new(p);
    fw.add_particle(v(-0.05, 0.0, 0.0), Vector::zero(), F64(1.0));
    fw.add_particle(v(0.05, 0.0, 0.0), Vector::zero(), F64(1.0));
    let dt = 1.0 / 120.0;
    for _ in 0..60 {
        fw.step(F64(dt));
    }
    let sep = distance(fw.particles[0].pos, fw.particles[1].pos);
    assert!(
        sep > 0.1,
        "compressed particles should repel, sep={sep} (started 0.1)"
    );
    let com = fw.particles[0].pos.add(fw.particles[1].pos).div(F64(2.0));
    assert!(
        com.x.0.abs() < 1e-9 && com.z.0.abs() < 1e-9,
        "centre of mass x/z should stay at origin, com={com:?}"
    );
}

#[test]
fn sph_step_is_deterministic() {
    let mut a = FluidWorld::new(fluid_params());
    a.add_particle(v(0.0, 0.0, 0.0), Vector::zero(), F64(1.0));
    a.add_particle(v(0.2, 0.1, 0.0), Vector::zero(), F64(1.0));
    a.add_particle(v(-0.15, 0.05, 0.1), Vector::zero(), F64(1.0));
    let mut b = a.clone();
    let dt = 1.0 / 60.0;
    for _ in 0..20 {
        a.step(F64(dt));
        b.step(F64(dt));
    }
    for (pa, pb) in a.particles.iter().zip(b.particles.iter()) {
        assert_eq!(pa.pos, pb.pos, "positions bit-identical across runs");
        assert_eq!(pa.vel, pb.vel, "velocities bit-identical across runs");
    }
}

fn granular_params() -> GranularParams<F64> {
    GranularParams {
        normal_stiffness: F64(800.0),
        normal_damping: F64(0.5),
        friction: F64(0.0),
        tangential_damping: F64(0.0),
        gravity: v(0.0, -9.81, 0.0),
    }
}

#[test]
fn dem_single_particle_free_fall_is_analytic() {
    // One particle without neighbours: no contacts, only gravity.
    let mut gw = GranularWorld::new(granular_params());
    gw.add_particle(v(0.0, 0.0, 0.0), Vector::zero(), F64(1.0), F64(0.05));
    let dt = 1.0 / 60.0;
    for _ in 0..60 {
        gw.step(F64(dt));
    }
    let p = &gw.particles[0];
    let expected = 0.5 * (-9.81) * 1.0_f64 * 1.0;
    assert!(
        (p.pos.y.0 - expected).abs() < 0.1,
        "free-fall y={} expected about {}",
        p.pos.y.0,
        expected
    );
    assert!(p.pos.y.0 < -4.0, "particle fell downward under gravity");
    assert!(p.pos.x.0.abs() < 1e-12 && p.pos.z.0.abs() < 1e-12);
}

#[test]
fn dem_overlapping_particles_push_apart() {
    let mut p = granular_params();
    p.normal_damping = F64(2.0); // settle the bounce
    p.gravity = Vector::zero(); // isolate the contact response
    let mut gw = GranularWorld::new(p);
    gw.add_particle(v(-0.03, 0.0, 0.0), Vector::zero(), F64(1.0), F64(0.05));
    gw.add_particle(v(0.03, 0.0, 0.0), Vector::zero(), F64(1.0), F64(0.05));
    let dt = 1.0 / 120.0;
    for _ in 0..240 {
        gw.step(F64(dt));
    }
    let sep = distance(gw.particles[0].pos, gw.particles[1].pos);
    assert!(
        sep >= 0.1 - 1e-3,
        "overlapping particles should push apart to about the sum of radii, sep={sep}"
    );
    let com = gw.particles[0].pos.add(gw.particles[1].pos).div(F64(2.0));
    assert!(
        com.x.0.abs() < 1e-9 && com.y.0.abs() < 1e-6 && com.z.0.abs() < 1e-9,
        "centre of mass should stay put, com={com:?}"
    );
}

#[test]
fn dem_friction_damps_tangential_slide() {
    // The lower particle is as good as fixed; the upper one slides over it. With friction the
    // slide slows down during the contact, without it it does not.
    let slide_after = |friction: f64| {
        let mut p = granular_params();
        p.friction = F64(friction);
        p.tangential_damping = F64(1.0);
        p.normal_damping = F64(5.0);
        p.normal_stiffness = F64(100.0);
        p.gravity = Vector::zero();
        let mut gw = GranularWorld::new(p);
        gw.add_particle(v(0.0, 0.0, 0.0), Vector::zero(), F64(1.0e9), F64(0.5));
        // Overlap 0.04 along x; slide velocity 2 along y.
        gw.add_particle(v(0.96, 0.0, 0.0), v(0.0, 2.0, 0.0), F64(1.0), F64(0.5));
        let dt = 1.0 / 240.0;
        for _ in 0..40 {
            gw.step(F64(dt));
        }
        gw.particles[1].vel.y.0
    };
    let v_frictionless = slide_after(0.0);
    let v_friction = slide_after(0.8);
    assert!(
        (v_frictionless - 2.0).abs() < 0.15,
        "without friction the slide is essentially untouched: v={v_frictionless}"
    );
    assert!(
        v_friction < v_frictionless - 0.1,
        "friction should slow the slide: with 0.8 v={v_friction}, with 0 v={v_frictionless}"
    );
}

#[test]
fn dem_step_is_deterministic() {
    let mut a = GranularWorld::new(granular_params());
    a.add_particle(v(0.0, 0.0, 0.0), Vector::zero(), F64(1.0), F64(0.05));
    a.add_particle(v(0.08, 0.01, 0.0), Vector::zero(), F64(1.0), F64(0.05));
    a.add_particle(v(-0.06, 0.02, 0.05), Vector::zero(), F64(1.0), F64(0.05));
    let mut b = a.clone();
    let dt = 1.0 / 60.0;
    for _ in 0..20 {
        a.step(F64(dt));
        b.step(F64(dt));
    }
    for (pa, pb) in a.particles.iter().zip(b.particles.iter()) {
        assert_eq!(pa.pos, pb.pos, "positions bit-identical across runs");
        assert_eq!(pa.vel, pb.vel, "velocities bit-identical across runs");
    }
}

#[test]
fn free_fall_is_analytic() {
    // One step of a free particle is `x1 = x0 + dt * v0 + dt * dt * a`, to the last bit.
    let g = v(0.0, -9.81, 0.0);
    let mut body = SoftBody::new(g);
    let x0 = v(0.0, 10.0, 0.0);
    body.add_particle(x0);
    body.particles[0].vel = v(1.0, 0.0, 0.0);

    let dt = 0.01;
    body.step(F64(dt));

    let a = g;
    let v0 = v(1.0, 0.0, 0.0);
    let expected = v(
        x0.x.0 + dt * v0.x.0 + dt * dt * a.x.0,
        x0.y.0 + dt * v0.y.0 + dt * dt * a.y.0,
        x0.z.0 + dt * v0.z.0 + dt * dt * a.z.0,
    );
    assert_eq!(body.particles[0].pos.x.0.to_bits(), expected.x.0.to_bits());
    assert_eq!(body.particles[0].pos.y.0.to_bits(), expected.y.0.to_bits());
    assert_eq!(body.particles[0].pos.z.0.to_bits(), expected.z.0.to_bits());
    let expected_v = v(
        v0.x.0 + dt * a.x.0,
        v0.y.0 + dt * a.y.0,
        v0.z.0 + dt * a.z.0,
    );
    assert_eq!(body.particles[0].vel.x.0.to_bits(), expected_v.x.0.to_bits());
    assert_eq!(body.particles[0].vel.y.0.to_bits(), expected_v.y.0.to_bits());
    assert_eq!(body.particles[0].vel.z.0.to_bits(), expected_v.z.0.to_bits());
}

#[test]
fn pinned_particle_does_not_move() {
    let mut body = SoftBody::new(v(0.0, -9.81, 0.0));
    let p = body.add_pinned(v(0.0, 5.0, 0.0));
    body.add_particle(v(0.0, 0.0, 0.0));
    // A spring makes forces act; the pinned end must stay put.
    body.add_spring(p, 1, F64(100.0), F64(1.0));

    let before = body.particles[p].pos;
    for _ in 0..50 {
        body.step(F64(0.01));
    }
    assert_eq!(body.particles[p].pos.x.0.to_bits(), before.x.0.to_bits());
    assert_eq!(body.particles[p].pos.y.0.to_bits(), before.y.0.to_bits());
    assert_eq!(body.particles[p].pos.z.0.to_bits(), before.z.0.to_bits());
    assert_eq!(body.particles[p].inv_mass, F64(0.0));
}

#[test]
fn spring_pulls_particles_together() {
    let mut body = SoftBody::new(Vector::zero());
    let a = body.add_particle(v(-2.0, 0.0, 0.0));
    let b = body.add_particle(v(2.0, 0.0, 0.0));
    body.springs.clear();
    body.springs.push(Spring {
        a,
        b,
        rest_length: F64(1.0),
        stiffness: F64(50.0),
        damping: F64(0.5),
    });

    let d0 = distance(body.particles[a].pos, body.particles[b].pos);
    for _ in 0..200 {
        body.step(F64(0.005));
    }
    let d1 = distance(body.particles[a].pos, body.particles[b].pos);
    assert!(d1 < d0, "spring should shorten the gap: {d0} -> {d1}");
    assert!(body.kinetic_energy().is_finite());
    assert!(body.particles[a].pos.is_finite());
    assert!(body.particles[b].pos.is_finite());
}

fn at(position: Vector<F64>) -> RigidBody<F64> {
    RigidBody::new(
        RigidBodyType::Dynamic,
        Pose { rotation: Rotation::identity(), translation: position },
    )
}

#[test]
fn write_spring_forces_routes_into_force_containers() {
    // Two rigid bodies 4 units apart on the x-axis, with one particle bound to each.
    let mut bodies = RigidBodySet::new();
    let ha = bodies.insert(at(v(-2.0, 0.0, 0.0)));
    let hb = bodies.insert(at(v(2.0, 0.0, 0.0)));

    let mut sb = SoftBody::new(Vector::zero());
    let pa = sb.add_particle(v(-2.0, 0.0, 0.0));
    let pb = sb.add_particle(v(2.0, 0.0, 0.0));
    sb.particles[pa].bound_body = Some(ha);
    sb.particles[pb].bound_body = Some(hb);
    sb.add_spring(pa, pb, F64(50.0), F64(0.5));

    // A rest length of 1 makes the force of the stretched spring a known one.
    sb.springs[0].rest_length = F64(1.0);

    let mut set = SoftBodySet::new();
    let id = set.insert(sb);
    let _ = id;

    set.write_spring_forces(&mut bodies);

    let kind = ForceKind::Custom(SOFT_SPRING_CUSTOM_ID);
    let ca = bodies
        .get(ha)
        .unwrap()
        .force_containers
        .get(kind)
        .expect("soft-spring container present on body A");
    let cb = bodies
        .get(hb)
        .unwrap()
        .force_containers
        .get(kind)
        .expect("soft-spring container present on body B");

    let fa = ca.contributions()[0].force();
    let fb = cb.contributions()[0].force();

    // len = 4, rest = 1: the force is 50 * (4 - 1) = 150, along +x from A.
    assert!((fb.x.0 + 150.0).abs() < 1e-9, "B force.x = {}", fb.x.0);
    assert!(fa.y.0.abs() < 1e-12 && fa.z.0.abs() < 1e-12);
    assert!(fb.y.0.abs() < 1e-12 && fb.z.0.abs() < 1e-12);
}

#[test]
fn xpbd_distance_constraint_restores_length() {
    let mut body = SoftBody::new(Vector::zero());
    let a = body.add_particle(v(0.0, 0.0, 0.0));
    let b = body.add_particle(v(1.0, 0.0, 0.0));
    body.configure_xpbd(20, F64(0.0));
    body.add_distance_constraint(a, b, F64(0.0));

    body.particles[b].pos = v(4.0, 0.0, 0.0);
    let d0 = distance(body.particles[a].pos, body.particles[b].pos);
    body.step_xpbd(F64(0.01));
    let d1 = distance(body.particles[a].pos, body.particles[b].pos);
    assert!(d1 < d0, "distance should shrink the gap: {d0} -> {d1}");
    assert!(d1 > 0.5 && d1 < 4.0, "gap in sane band: {d1}");
    assert!(body.particles[a].pos.is_finite());
    assert!(body.particles[b].pos.is_finite());
}

#[test]
fn xpbd_volume_constraint_preserves_tetrahedron() {
    let mut body = SoftBody::new(Vector::zero());
    let p0 = body.add_particle(v(0.0, 0.0, 0.0));
    let p1 = body.add_particle(v(1.0, 0.0, 0.0));
    let p2 = body.add_particle(v(0.0, 1.0, 0.0));
    let p3 = body.add_particle(v(0.0, 0.0, 1.0));
    body.configure_xpbd(20, F64(0.0));
    body.add_tetrahedron([p0 as u32, p1 as u32, p2 as u32, p3 as u32]);
    let rest = body.total_volume().0;
    assert!(rest.is_finite() && rest > 0.0, "rest volume sane: {rest}");

    body.particles[p3].pos = v(0.0, 0.0, 5.0);
    let perturbed = body.total_volume().0;
    assert!(
        perturbed > rest,
        "perturbation grew volume: {rest} -> {perturbed}"
    );

    body.step_xpbd(F64(0.01));
    let recovered = body.total_volume().0;
    assert!(recovered.is_finite());
    assert!(
        recovered > 0.1 * rest && recovered < perturbed,
        "volume recovered: {rest} -> {perturbed} -> {recovered}"
    );
}

#[test]
fn xpbd_is_deterministic_bit_identical() {
    let build = || {
        let mut body = SoftBody::new(v(0.0, -9.81, 0.0));
        let p0 = body.add_particle(v(0.0, 0.0, 0.0));
        let p1 = body.add_particle(v(1.0, 0.0, 0.0));
        let p2 = body.add_particle(v(0.0, 1.0, 0.0));
        let p3 = body.add_particle(v(0.0, 0.0, 1.0));
        body.configure_xpbd(15, F64(1e-6));
        body.add_distance_constraint(p0, p1, F64(1e-6));
        body.add_distance_constraint(p1, p2, F64(1e-6));
        body.add_distance_constraint(p2, p3, F64(1e-6));
        body.add_tetrahedron([p0 as u32, p1 as u32, p2 as u32, p3 as u32]);
        body
    };
    let mut a = build();
    let mut b = build();
    for _ in 0..30 {
        a.step_xpbd(F64(0.01));
        b.step_xpbd(F64(0.01));
    }
    for i in 0..a.particles.len() {
        assert_eq!(
            a.particles[i].pos.x.0.to_bits(),
            b.particles[i].pos.x.0.to_bits(),
            "x bit-identical p{i}"
        );
        assert_eq!(
            a.particles[i].pos.y.0.to_bits(),
            b.particles[i].pos.y.0.to_bits(),
            "y bit-identical p{i}"
        );
        assert_eq!(
            a.particles[i].pos.z.0.to_bits(),
            b.particles[i].pos.z.0.to_bits(),
            "z bit-identical p{i}"
        );
    }
}

#[test]
fn xpbd_step_dispatcher_routes_to_xpbd() {
    let mut body = SoftBody::new(Vector::zero());
    let a = body.add_particle(v(0.0, 0.0, 0.0));
    let b = body.add_particle(v(1.0, 0.0, 0.0));
    body.configure_xpbd(20, F64(0.0));
    body.add_distance_constraint(a, b, F64(0.0));
    body.particles[b].pos = v(4.0, 0.0, 0.0);
    let d0 = distance(body.particles[a].pos, body.particles[b].pos);
    body.step(F64(0.01));
    let d1 = distance(body.particles[a].pos, body.particles[b].pos);
    assert!(d1 < d0, "the step should shrink the gap: {d0} -> {d1}");
}

fn motion(rb: &RigidBody<F64>) -> ParrySweep {
    let from = rb.position.translation;
    let to = rb.next_position.translation;
    ParrySweep::from_poses(
        &ParryPose::translation(from.x.0, from.y.0, from.z.0),
        &ParryPose::translation(to.x.0, to.y.0, to.z.0),
        ParryVector::new(0.0, 0.0, 0.0),
    )
}

/// Sweeps the ball of body `a` against the ball of body `b`, both of radius one half.
fn sweep_balls(
    bodies: &RigidBodySet<F64>,
    a: RigidBodyHandle,
    b: RigidBodyHandle,
) -> BodyContinuousResult<F64> {
    let ball = ToiProxy::point(ParryVector::new(0.0, 0.0, 0.0), 0.5);
    let out = sweep_time_of_impact(
        &ball,
        &motion(bodies.get(a).unwrap()),
        &ball,
        &motion(bodies.get(b).unwrap()),
        1.0,
        0.005,
    );
    let hit = out.status == SweepToiStatus::Hit;
    BodyContinuousResult {
        handle: a,
        fraction: F64(if hit { out.fraction } else { 1.0 }),
        toi: if hit {
            Some((
                v(out.point.x, out.point.y, out.point.z),
                v(out.normal.x, out.normal.y, out.normal.z),
            ))
        } else {
            None
        },
        pseudo_hits: Vec::new(),
    }
}

/// Two balls at 0.7 on either side of the origin that would cross each other, after the pass over
/// the fast bodies.
fn crossing_bullets() -> (RigidBodySet<F64>, RigidBodyHandle, RigidBodyHandle) {
    let mut bodies = RigidBodySet::new();
    let a_h = bodies.insert(at(v(-0.7, 0.0, 0.0)));
    let b_h = bodies.insert(at(v(0.7, 0.0, 0.0)));
    let a_mut = bodies.get_mut(a_h).unwrap();
    a_mut.next_position.translation.x = F64(0.5);
    a_mut.ccd.ccd_enabled = true;
    a_mut.ccd.ccd_active = true;
    let b_mut = bodies.get_mut(b_h).unwrap();
    b_mut.next_position.translation.x = F64(-0.5);
    b_mut.ccd.ccd_enabled = true;
    b_mut.ccd.ccd_active = true;

    let mut ccd_solver = CCDSolver::new();
    let mut task = ContinuousTask::Start {
        active: vec![a_h, b_h],
        prediction: F64(0.002),
        scene_changed: true,
    };
    let mut reply = ContinuousReply::Nothing;
    loop {
        task = ccd_solver.solve_continuous(task, reply, &mut bodies);
        reply = match &task {
            ContinuousTask::CollectTargets { .. } => ContinuousReply::Targets(Some(Vec::new())),
            ContinuousTask::SweepFixed { non_bullets, .. } => {
                assert!(non_bullets.is_empty(), "both bodies are bullets");
                ContinuousReply::Results(Vec::new())
            }
            ContinuousTask::SweepBullets { bullets, .. } => {
                assert_eq!(*bullets, vec![a_h, b_h]);
                ContinuousReply::Results(vec![
                    sweep_balls(&bodies, a_h, b_h),
                    sweep_balls(&bodies, b_h, a_h),
                ])
            }
            ContinuousTask::Probe { hits } => {
                assert!(hits.is_empty());
                ContinuousReply::Probes(Vec::new())
            }
            ContinuousTask::Finished { events } => {
                assert!(events.is_empty());
                return (bodies, a_h, b_h);
            }
            ContinuousTask::Start { .. } => panic!("the pass went back to its start"),
        };
    }
}

#[test]
fn ccd_between_two_fast_bullets_does_not_tunnel() {
    let (bodies, a_h, b_h) = crossing_bullets();
    let a_pos = bodies.get(a_h).unwrap().next_position.translation.x.0;
    let b_pos = bodies.get(b_h).unwrap().next_position.translation.x.0;
    assert!(
        a_pos < 0.0 && b_pos > 0.0 && a_pos < b_pos,
        "bullets tunneled through each other: A.x={}, B.x={}",
        a_pos,
        b_pos
    );
}

#[test]
fn ccd_records_point_of_impact() {
    let (bodies, a_h, b_h) = crossing_bullets();
    let a_toi = bodies.get(a_h).unwrap().ccd.impact;
    let b_toi = bodies.get(b_h).unwrap().ccd.impact;
    assert!(a_toi.is_some(), "A must record a CCD point of impact");
    assert!(b_toi.is_some(), "B must record a CCD point of impact");

    let (a_point, a_normal) = a_toi.unwrap();
    let (b_point, b_normal) = b_toi.unwrap();
    // The hit point lies on the line between the centres.
    assert!(
        a_point.y.0.abs() < 1.0e-6 && a_point.z.0.abs() < 1.0e-6,
        "impact point must lie on the A-B center line, got {:?}",
        a_point
    );
    // The normals lie along the x axis and oppose each other.
    assert!(
        a_normal.x.0.abs() > 0.99 && b_normal.x.0.abs() > 0.99,
        "both normals must align with X, got A={:?} B={:?}",
        a_normal,
        b_normal
    );
    assert!(
        a_normal.x.0 * b_normal.x.0 < 0.0,
        "A and B separating normals must oppose, got A={:?} B={:?}",
        a_normal,
        b_normal
    );
    // Both records describe the same point.
    assert!(
        (a_point.x.0 - b_point.x.0).abs() < 1.0e-6,
        "A and B must agree on the impact x, got {} vs {}",
        a_point.x.0,
        b_point.x.0
    );
}

fn collider(index: u32) -> ColliderHandle {
    ColliderHandle { index, generation: 0 }
}

#[test]
fn fast_bodies_are_flagged_by_the_estimate_asked_for() {
    let mut bodies = RigidBodySet::new();
    let fast = bodies.insert(at(v(0.0, 0.0, 0.0)));
    let slow = bodies.insert(at(v(1.0, 0.0, 0.0)));
    let fixed = bodies.insert(RigidBody::new(
        RigidBodyType::Fixed,
        Pose { rotation: Rotation::identity(), translation: Vector::zero() },
    ));
    bodies.get_mut(fast).unwrap().ccd.fast_before_solve = true;
    bodies.get_mut(slow).unwrap().ccd.ccd_active = true;
    bodies.get_mut(fixed).unwrap().ccd.fast_before_solve = true;
    let solver: CCDSolver<F64> = CCDSolver::default();

    assert!(solver.update_ccd_active_flags(&[fast, slow, fixed], &mut bodies, true));
    assert!(bodies.get(fast).unwrap().ccd.ccd_active);
    assert!(!bodies.get(slow).unwrap().ccd.ccd_active);
    assert!(!bodies.get(fixed).unwrap().ccd.ccd_active);

    // The solved motion of none of them is fast.
    assert!(!solver.update_ccd_active_flags(&[fast, slow, fixed], &mut bodies, false));
    assert!(!bodies.get(fast).unwrap().ccd.ccd_active);
}

#[test]
fn the_first_impact_is_the_smallest_fraction() {
    let solver: CCDSolver<F64> = CCDSolver::new();
    let dt = F64(0.5);
    assert_eq!(solver.find_first_impact(dt, &[F64(0.75), F64(0.25), F64(1.0)]), Some(F64(0.125)));
    assert_eq!(solver.find_first_impact(dt, &[F64(1.0)]), None);
    assert_eq!(solver.find_first_impact(dt, &[]), None);
}

#[test]
fn a_clamped_body_stops_at_its_impact_and_keeps_its_velocity() {
    let mut bodies = RigidBodySet::new();
    let h = bodies.insert(at(v(0.0, 0.0, 0.0)));
    let free = bodies.insert(at(v(0.0, 5.0, 0.0)));
    let rb = bodies.get_mut(h).unwrap();
    rb.next_position.translation = v(8.0, 0.0, 0.0);
    rb.linvel = v(8.0, 0.0, 0.0);
    bodies.get_mut(free).unwrap().next_position.translation = v(8.0, 5.0, 0.0);
    let results = vec![
        BodyContinuousResult {
            handle: h,
            fraction: F64(0.25),
            toi: Some((v(2.5, 0.0, 0.0), v(-1.0, 0.0, 0.0))),
            pseudo_hits: Vec::new(),
        },
        BodyContinuousResult {
            handle: free,
            fraction: F64(1.0),
            toi: None,
            pseudo_hits: Vec::new(),
        },
    ];
    CCDSolver::apply_clamps(&mut bodies, &results);
    let rb = bodies.get(h).unwrap();
    assert_eq!(rb.next_position.translation, v(2.0, 0.0, 0.0));
    assert_eq!(rb.position.translation, v(0.0, 0.0, 0.0));
    assert_eq!(rb.linvel, v(8.0, 0.0, 0.0));
    assert_eq!(rb.ccd.impact, Some((v(2.5, 0.0, 0.0), v(-1.0, 0.0, 0.0))));
    let rb = bodies.get(free).unwrap();
    assert_eq!(rb.next_position.translation, v(8.0, 5.0, 0.0));
    assert_eq!(rb.ccd.impact, None);
}

#[test]
fn sensors_passed_through_before_the_impact_are_reported_once_in_pairs() {
    let mut bodies = RigidBodySet::new();
    let h = bodies.insert(at(v(0.0, 0.0, 0.0)));
    let rb = bodies.get_mut(h).unwrap();
    rb.ccd.ccd_active = true;
    rb.next_position.translation = v(4.0, 0.0, 0.0);
    let hit = |other: u32, fraction: f64| PseudoHit {
        ch1: collider(0),
        ch2: collider(other),
        fraction: F64(fraction),
    };
    let mut solver = CCDSolver::new();
    let task = solver.solve_continuous(
        ContinuousTask::Start { active: vec![h], prediction: F64(0.5), scene_changed: true },
        ContinuousReply::Nothing,
        &mut bodies,
    );
    assert!(matches!(task, ContinuousTask::CollectTargets { .. }));
    // A reply that was not asked for changes nothing.
    let task =
        solver.solve_continuous(task, ContinuousReply::Results(Vec::new()), &mut bodies);
    assert!(matches!(task, ContinuousTask::CollectTargets { .. }));
    let floor = Aabb { mins: v(-1.0, -1.0, -1.0), maxs: v(1.0, 0.0, 1.0) };
    let task = solver.solve_continuous(
        task,
        ContinuousReply::Targets(Some(vec![(collider(9), floor)])),
        &mut bodies,
    );
    assert_eq!(solver.fixed_targets().unwrap().len(), 1);
    let task = solver.solve_continuous(
        task,
        ContinuousReply::Results(vec![BodyContinuousResult {
            handle: h,
            fraction: F64(0.5),
            toi: None,
            pseudo_hits: vec![hit(1, 0.25), hit(2, 0.75), hit(3, 0.25), hit(4, 0.25)],
        }]),
        &mut bodies,
    );
    assert_eq!(bodies.get(h).unwrap().next_position.translation, v(2.0, 0.0, 0.0));
    // The second collider lies behind the impact.
    let hits = match &task {
        ContinuousTask::Probe { hits } => hits.iter().map(|p| p.ch2).collect::<Vec<_>>(),
        _ => panic!("no bullets are left to sweep"),
    };
    assert_eq!(hits, vec![collider(1), collider(3), collider(4)]);
    let probe = |sensor: bool, after: bool| SensorProbe {
        sensor,
        wants_events: true,
        intersect_before: false,
        intersect_after: after,
    };
    let task = solver.solve_continuous(
        task,
        ContinuousReply::Probes(vec![probe(true, false), probe(false, false), probe(true, true)]),
        &mut bodies,
    );
    let through_a_sensor = CollisionEventFlags { sensor: true, removed: false };
    match task {
        ContinuousTask::Finished { events } => assert_eq!(
            events,
            vec![
                CollisionEvent::Started(collider(0), collider(1), through_a_sensor),
                CollisionEvent::Stopped(collider(0), collider(1), through_a_sensor),
            ]
        ),
        _ => panic!("the pass is over"),
    }

    // The list of fixed colliders is kept while nothing changes.
    let again = ContinuousTask::Start {
        active: vec![h],
        prediction: F64(0.5),
        scene_changed: false,
    };
    let task = solver.solve_continuous(again, ContinuousReply::Nothing, &mut bodies);
    assert!(matches!(task, ContinuousTask::SweepFixed { .. }));
    // Another prediction distance makes it stale.
    let again = ContinuousTask::Start {
        active: vec![h],
        prediction: F64(0.25),
        scene_changed: false,
    };
    let task = solver.solve_continuous(again, ContinuousReply::Nothing, &mut bodies);
    assert!(matches!(task, ContinuousTask::CollectTargets { .. }));
}

#[test]
fn results_for_bodies_that_were_not_asked_for_change_nothing() {
    let mut bodies = RigidBodySet::new();
    let moving = |bodies: &mut RigidBodySet<F64>, y: f64, active: bool, bullet: bool| {
        let h = bodies.insert(at(v(0.0, y, 0.0)));
        let rb = bodies.get_mut(h).unwrap();
        rb.next_position.translation = v(8.0, y, 0.0);
        rb.ccd.ccd_active = active;
        rb.ccd.ccd_enabled = bullet;
        h
    };
    let fast = moving(&mut bodies, 0.0, true, false);
    let slow = moving(&mut bodies, 1.0, false, false);
    let bullet = moving(&mut bodies, 2.0, true, true);
    let asleep = moving(&mut bodies, 3.0, true, false);
    let active = vec![slow, fast, bullet];
    assert_eq!(pick_fast(&bodies, &active, false), vec![fast]);
    assert_eq!(pick_fast(&bodies, &active, true), vec![bullet]);
    let stop = |h: RigidBodyHandle, fraction: f64| BodyContinuousResult {
        handle: h,
        fraction: F64(fraction),
        toi: None,
        pseudo_hits: vec![PseudoHit {
            ch1: collider(h.index),
            ch2: collider(9),
            fraction: F64(0.125),
        }],
    };
    let mut solver = CCDSolver::new();
    let task = solver.solve_continuous(
        ContinuousTask::Start { active, prediction: F64(0.5), scene_changed: true },
        ContinuousReply::Nothing,
        &mut bodies,
    );
    let task = solver.solve_continuous(task, ContinuousReply::Targets(None), &mut bodies);
    match &task {
        ContinuousTask::SweepFixed { non_bullets, bullets } => {
            assert_eq!(*non_bullets, vec![fast]);
            assert_eq!(*bullets, vec![bullet]);
        }
        _ => panic!("the bodies that are no bullets come first"),
    }
    let task = solver.solve_continuous(
        task,
        ContinuousReply::Results(vec![
            stop(slow, 0.5),
            stop(fast, 0.5),
            stop(fast, 0.25),
            stop(bullet, 0.5),
            stop(asleep, 0.5),
        ]),
        &mut bodies,
    );
    let end = |bodies: &RigidBodySet<F64>, h| bodies.get(h).unwrap().next_position.translation.x.0;
    assert_eq!(end(&bodies, fast), 4.0);
    assert_eq!(end(&bodies, slow), 8.0);
    assert_eq!(end(&bodies, bullet), 8.0);
    assert_eq!(end(&bodies, asleep), 8.0);
    match &task {
        ContinuousTask::SweepBullets { bullets, hits } => {
            assert_eq!(*bullets, vec![bullet]);
            assert_eq!(hits.len(), 1);
            assert_eq!(hits[0].ch1, collider(fast.index));
        }
        _ => panic!("the bullet is left"),
    }
    let task = solver.solve_continuous(
        task,
        ContinuousReply::Results(vec![stop(fast, 0.5), stop(bullet, 0.75)]),
        &mut bodies,
    );
    assert_eq!(end(&bodies, fast), 4.0);
    assert_eq!(end(&bodies, bullet), 6.0);
    match &task {
        ContinuousTask::Probe { hits } => assert_eq!(
            hits.iter().map(|p| p.ch1).collect::<Vec<_>>(),
            vec![collider(fast.index), collider(bullet.index)]
        ),
        _ => panic!("the sensors are left"),
    }
}
