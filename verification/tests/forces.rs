//! Forces on bodies, joints and particles, on exact fixed-point numbers.
use dynakit::dynamics::fluid::{
    poly6, spiky_gradient, viscosity_laplacian, FluidParams, FluidWorld,
};
use dynakit::dynamics::force_containers::{
    bridge_solver_contact_forces, compute_body_effective_forces, drain_transient_forces,
    ContactPair, EffectiveForce, ForceContainer, ForceContribution, ForceEntry, ForceKind,
    KindContainer, Persistence, SolverContact, SolverManifold,
};
use dynakit::dynamics::granular::{
    contact_force, GranularParams, GranularParticle, GranularWorld,
};
use dynakit::dynamics::joint::generic_joint::{GenericJoint, JointLimits, MotorModel};
use dynakit::dynamics::joint::wheel_joint::{WheelJoint, WheelJointBuilder};
use dynakit::dynamics::rigid_body::{RigidBody, RigidBodyHandle, RigidBodySet, RigidBodyType};
use dynakit::fixed::Fixed;
use dynakit::math::{Pose, Rotation, Vector};

fn n(x: f64) -> Fixed {
    Fixed { raw: (x * 4294967296.0) as i64 }
}

fn v(x: f64, y: f64, z: f64) -> Vector<Fixed> {
    Vector { x: n(x), y: n(y), z: n(z) }
}

fn near(a: Fixed, b: f64) -> bool {
    (a.raw as f64 / 4294967296.0 - b).abs() < 1.0e-6
}

fn body() -> RigidBody<Fixed> {
    RigidBody::new(
        RigidBodyType::Dynamic,
        Pose { rotation: Rotation::identity(), translation: Vector::zero() },
    )
}

fn push(force: Vector<Fixed>) -> ForceEntry<Fixed> {
    ForceEntry { id: 0, force, torque: Vector::zero(), point: None }
}

fn gravity(g: f64) -> KindContainer<Fixed> {
    let mut c = KindContainer::new(ForceKind::Gravity, Persistence::Persistent);
    c.push(push(v(0.0, g, 0.0)));
    c
}

#[test]
fn an_off_centre_force_turns_the_body() {
    let mut eff = EffectiveForce::none();
    let entry = ForceEntry {
        id: 1,
        force: v(0.0, 2.0, 0.0),
        torque: v(1.0, 0.0, 0.0),
        point: Some(v(4.0, 0.0, 0.0)),
    };
    entry.accumulate(&mut eff, v(1.0, 0.0, 0.0));
    assert_eq!(eff.force, v(0.0, 2.0, 0.0));
    assert_eq!(eff.torque, v(1.0, 0.0, 6.0));
}

#[test]
fn a_container_numbers_its_forces() {
    let mut c = KindContainer::new(ForceKind::Thrust, Persistence::Persistent);
    assert!(c.is_empty());
    assert_eq!(c.push(push(v(1.0, 0.0, 0.0))), 1);
    assert_eq!(c.push(ForceEntry { id: 9, ..push(v(2.0, 0.0, 0.0)) }), 9);
    assert_eq!(c.push(push(v(3.0, 0.0, 0.0))), 3);
    let ids: Vec<u64> = c.contributions().iter().map(|e| e.id).collect();
    assert_eq!(ids, vec![1, 9, 3]);
    assert!(!c.remove(2));
    assert!(c.remove(9));
    assert_eq!(c.len(), 2);
    // Removing what was added leaves the others as they were.
    let id = c.push(ForceEntry { id: 5, ..push(v(4.0, 0.0, 0.0)) });
    assert!(c.remove(id));
    let ids: Vec<u64> = c.contributions().iter().map(|e| e.id).collect();
    assert_eq!(ids, vec![1, 3]);
    c.end_frame();
    assert_eq!(c.len(), 2);
    c.clear();
    assert!(c.is_empty());
    assert_eq!(c.kind(), ForceKind::Thrust);
    assert_eq!(c.persistence(), Persistence::Persistent);
}

#[test]
fn all_forces_on_a_body_are_summed() {
    let mut rb = body();
    rb.mprops.effective_mass = v(2.0, 2.0, 2.0);
    rb.forces.gravity_scale = n(0.5);
    rb.forces.user_force = v(1.0, 0.0, 0.0);
    rb.forces.user_torque = v(0.0, 0.0, 1.0);
    rb.force_containers.push_entry(
        ForceKind::Thrust,
        Persistence::Persistent,
        push(v(0.0, 0.0, 5.0)),
    );
    rb.force_containers.push_entry(
        ForceKind::Event,
        Persistence::Transient,
        ForceEntry { point: Some(v(0.0, 1.0, 0.0)), ..push(v(3.0, 0.0, 0.0)) },
    );
    compute_body_effective_forces(&mut rb, &gravity(-10.0));
    assert_eq!(rb.forces.force, v(4.0, -10.0, 5.0));
    assert_eq!(rb.forces.torque, v(0.0, 0.0, -2.0));
    // What the user set stays.
    assert_eq!(rb.forces.user_force, v(1.0, 0.0, 0.0));
}

#[test]
fn forces_of_one_step_are_dropped_at_its_end() {
    let mut rb = body();
    rb.force_containers.push_entry(
        ForceKind::Wind,
        Persistence::Transient,
        push(v(1.0, 0.0, 0.0)),
    );
    rb.force_containers.push_entry(
        ForceKind::Custom(4),
        Persistence::Persistent,
        push(v(2.0, 0.0, 0.0)),
    );
    drain_transient_forces(&mut rb);
    assert!(rb.force_containers.get(ForceKind::Wind).unwrap().is_empty());
    assert_eq!(rb.force_containers.get(ForceKind::Custom(4)).unwrap().len(), 1);
    assert!(rb.force_containers.get(ForceKind::Custom(5)).is_none());
}

#[test]
fn a_body_has_one_container_for_a_kind() {
    let mut rb = body();
    let mut first = KindContainer::new(ForceKind::Magnetic, Persistence::Persistent);
    first.push(push(v(1.0, 0.0, 0.0)));
    rb.force_containers.insert(first);
    rb.force_containers.insert(KindContainer::new(ForceKind::User, Persistence::Persistent));
    rb.force_containers.insert(KindContainer::new(ForceKind::Magnetic, Persistence::Transient));
    assert_eq!(rb.force_containers.len(), 2);
    assert!(rb.force_containers.at(0).is_empty());
    assert_eq!(rb.force_containers.at(0).persistence(), Persistence::Transient);
    assert!(rb.force_containers.remove(ForceKind::Magnetic));
    assert!(!rb.force_containers.remove(ForceKind::Magnetic));
    assert_eq!(rb.force_containers.len(), 1);
}

fn touching_pair(a: RigidBodyHandle, b: RigidBodyHandle) -> ContactPair<Fixed> {
    ContactPair {
        manifolds: vec![SolverManifold {
            normal: v(0.0, 1.0, 0.0),
            tangents: [v(1.0, 0.0, 0.0), v(0.0, 0.0, 1.0)],
            rigid_body1: Some(a),
            rigid_body2: Some(b),
            contacts: vec![
                SolverContact {
                    impulse: n(2.0),
                    tangent_impulse: [n(0.5), n(0.0)],
                    dp1: v(1.0, 0.0, 0.0),
                },
                SolverContact {
                    impulse: n(1.0),
                    tangent_impulse: [n(0.0), n(0.25)],
                    dp1: v(0.0, 0.0, 0.0),
                },
            ],
        }],
    }
}

#[test]
fn solved_contacts_are_reported_on_both_bodies() {
    let mut bodies = RigidBodySet::new();
    let a = bodies.insert(body());
    let b = bodies.insert(body());
    bridge_solver_contact_forces(&[touching_pair(a, b)], &mut bodies, n(0.5));
    let of = |h: RigidBodyHandle, kind: ForceKind| -> Vec<ForceEntry<Fixed>> {
        bodies.get(h).unwrap().force_containers.get(kind).unwrap().contributions()
    };
    let r = of(a, ForceKind::ContactReaction);
    assert_eq!(r.len(), 1);
    assert_eq!(r[0].id, 1);
    assert_eq!(r[0].force, v(0.0, -6.0, 0.0));
    assert_eq!(r[0].torque, v(0.0, 0.0, -4.0));
    let f = of(a, ForceKind::Friction);
    assert_eq!(f[0].force, v(-1.0, 0.0, -0.5));
    assert_eq!(of(b, ForceKind::ContactReaction)[0].force, v(0.0, 6.0, 0.0));
    assert_eq!(of(b, ForceKind::ContactReaction)[0].torque, v(0.0, 0.0, 4.0));
    assert_eq!(of(b, ForceKind::Friction)[0].force, v(1.0, 0.0, 0.5));
}

#[test]
fn reports_do_not_act_on_the_body() {
    let mut bodies = RigidBodySet::new();
    let a = bodies.insert(body());
    let b = bodies.insert(body());
    bodies.get_mut(a).unwrap().force_containers.push_entry(
        ForceKind::Thrust,
        Persistence::Persistent,
        push(v(7.0, 0.0, 0.0)),
    );
    bridge_solver_contact_forces(&[touching_pair(a, b)], &mut bodies, n(0.5));
    compute_body_effective_forces(bodies.get_mut(a).unwrap(), &gravity(0.0));
    assert_eq!(bodies.get(a).unwrap().forces.force, v(7.0, 0.0, 0.0));
    assert_eq!(bodies.get(a).unwrap().forces.torque, v(0.0, 0.0, 0.0));
    // A contact without an impulse leaves no entry.
    let mut pair = touching_pair(a, b);
    pair.manifolds[0].contacts.clear();
    bridge_solver_contact_forces(&[pair], &mut bodies, n(0.5));
    let rb = bodies.get(a).unwrap();
    assert!(rb.force_containers.get(ForceKind::ContactReaction).unwrap().is_empty());
    // Without two bodies there is nothing to report.
    let mut pair = touching_pair(a, b);
    pair.manifolds[0].rigid_body2 = None;
    bridge_solver_contact_forces(&[pair], &mut bodies, n(0.5));
    let rb = bodies.get(a).unwrap();
    assert!(rb.force_containers.get(ForceKind::ContactReaction).unwrap().is_empty());
}

#[test]
fn every_touching_pair_is_reported_and_none_that_parted() {
    let mut bodies = RigidBodySet::new();
    let a = bodies.insert(body());
    let b = bodies.insert(body());
    let c = bodies.insert(body());
    assert_eq!(bodies.len(), 3);
    bridge_solver_contact_forces(
        &[touching_pair(a, b), touching_pair(c, a)],
        &mut bodies,
        n(0.5),
    );
    let forces = |bodies: &RigidBodySet<Fixed>, h: RigidBodyHandle| -> Vec<Vector<Fixed>> {
        let rb = bodies.get(h).unwrap();
        let c = rb.force_containers.get(ForceKind::ContactReaction).unwrap();
        c.contributions().iter().map(|e| e.force).collect()
    };
    assert_eq!(forces(&bodies, a), vec![v(0.0, -6.0, 0.0), v(0.0, 6.0, 0.0)]);
    assert_eq!(forces(&bodies, b), vec![v(0.0, 6.0, 0.0)]);
    assert_eq!(forces(&bodies, c), vec![v(0.0, -6.0, 0.0)]);
    // In the next step only the second pair touches.
    bridge_solver_contact_forces(&[touching_pair(c, a)], &mut bodies, n(0.5));
    assert_eq!(forces(&bodies, a), vec![v(0.0, 6.0, 0.0)]);
    assert!(forces(&bodies, b).is_empty());
    // A force of another kind is left alone.
    bodies.get_mut(b).unwrap().force_containers.push_entry(
        ForceKind::Event,
        Persistence::Transient,
        push(v(1.0, 0.0, 0.0)),
    );
    bridge_solver_contact_forces(&[], &mut bodies, n(0.5));
    let rb = bodies.get(b).unwrap();
    assert_eq!(rb.force_containers.get(ForceKind::Event).unwrap().len(), 1);
    assert!(forces(&bodies, c).is_empty());
}

#[test]
fn a_handle_finds_its_body() {
    let mut bodies = RigidBodySet::new();
    let a = bodies.insert(body());
    let b = bodies.insert(body());
    assert_ne!(a, b);
    bodies.get_mut(b).unwrap().linvel = v(1.0, 0.0, 0.0);
    bodies.get_mut(b).unwrap().angvel = v(0.0, 0.0, 2.0);
    assert_eq!(bodies.get(a).unwrap().linvel, Vector::zero());
    assert_eq!(bodies.get(b).unwrap().velocity_at_point(v(0.0, 3.0, 0.0)), v(-5.0, 0.0, 0.0));
    let stale = RigidBodyHandle { index: a.index, generation: a.generation + 1 };
    assert!(bodies.get(stale).is_none());
    assert!(bodies.get_mut(stale).is_none());
    assert!(bodies.get(a).unwrap().is_dynamic());
}

#[test]
fn a_wheel_is_a_sprung_joint() {
    let wheel = WheelJoint::new(n(0.5), n(100.0), n(10.0));
    let data = *wheel.data();
    assert!(data.lin_x.locked && data.lin_z.locked && data.ang_z.locked);
    assert!(!data.lin_y.locked && !data.ang_x.locked && !data.ang_y.locked);
    assert_eq!(data.lin_y.limits, Some(JointLimits { min: n(0.0), max: n(0.5) }));
    assert!(data.lin_y.coupled && data.lin_y.motorized);
    assert_eq!(data.lin_y.motor.target_pos, n(0.5));
    assert_eq!(data.lin_y.motor.model, MotorModel::ForceBased);
    assert!(!data.ang_x.motorized && !data.ang_y.motorized);
    assert_eq!(wheel.suspension(), (n(100.0), n(10.0)));
    assert_eq!(wheel.suspension_rest_length(), n(0.5));
    assert_eq!(GenericJoint::from(wheel), data);
}

#[test]
fn steering_and_driving_keep_the_suspension() {
    let mut wheel = WheelJoint::new(n(0.5), n(100.0), n(10.0));
    wheel
        .set_steering(n(0.25), n(50.0), n(5.0))
        .set_axle_velocity(n(30.0), n(2.0))
        .set_contacts_enabled(false);
    assert_eq!(wheel.suspension(), (n(100.0), n(10.0)));
    assert_eq!(wheel.data.ang_y.motor.target_pos, n(0.25));
    assert_eq!(wheel.data.ang_y.motor.model, MotorModel::AccelerationBased);
    assert_eq!(wheel.data.ang_x.motor.target_vel, n(30.0));
    assert_eq!(wheel.data.ang_x.motor.stiffness, n(0.0));
    assert_eq!(wheel.data.ang_x.motor.damping, n(2.0));
    assert!(!wheel.contacts_enabled());
    wheel.set_axle_target(n(1.0), n(3.0), n(4.0));
    assert_eq!(wheel.data.ang_x.motor.target_pos, n(1.0));
    assert_eq!(wheel.data.ang_x.motor.target_vel, n(0.0));
    wheel.set_suspension_rest_length(n(0.625));
    assert_eq!(wheel.suspension_rest_length(), n(0.625));
    assert_eq!(wheel.suspension(), (n(100.0), n(10.0)));
    assert_eq!(wheel.data.lin_y.motor.target_pos, n(0.625));
    wheel.set_suspension_rest_length(n(0.75)).set_suspension(n(80.0), n(8.0));
    assert_eq!(wheel.suspension_rest_length(), n(0.75));
    assert_eq!(wheel.suspension(), (n(80.0), n(8.0)));
    assert_eq!(wheel.data.lin_y.motor.target_pos, n(0.75));
}

#[test]
fn a_wheel_is_built_with_its_anchors() {
    let wheel = WheelJointBuilder::new(n(0.5), n(1.0), n(2.0))
        .local_anchor1(v(1.0, 0.0, 0.0))
        .local_anchor2(v(0.0, 1.0, 0.0))
        .contacts_enabled(false)
        .build();
    assert_eq!(wheel.local_anchor1(), v(1.0, 0.0, 0.0));
    assert_eq!(wheel.local_anchor2(), v(0.0, 1.0, 0.0));
    assert!(!wheel.contacts_enabled());
}

#[test]
fn fluid_kernels_follow_their_formulas() {
    let pi = std::f64::consts::PI;
    assert!(near(poly6(n(0.5), n(1.0)), 315.0 / (64.0 * pi) * 0.75 * 0.75 * 0.75));
    assert_eq!(poly6(n(1.0), n(1.0)), n(0.0));
    let g = spiky_gradient(v(0.5, 0.0, 0.0), n(1.0));
    assert!(near(g.x, -45.0 / pi * 0.25));
    assert_eq!((g.y, g.z), (n(0.0), n(0.0)));
    assert_eq!(spiky_gradient(v(0.0, 0.0, 0.0), n(1.0)), Vector::zero());
    assert!(near(viscosity_laplacian(n(0.25), n(1.0)), 45.0 / pi * 0.75));
    assert_eq!(viscosity_laplacian(n(2.0), n(1.0)), n(0.0));
}

#[test]
fn a_fluid_particle_counts_itself_in_its_density() {
    let pi = std::f64::consts::PI;
    let mut world = FluidWorld::new(FluidParams {
        smoothing_radius: n(1.0),
        gas_constant: n(2.0),
        rest_density: n(1.0),
        viscosity: n(0.0),
        surface_tension: n(0.0),
        gravity: v(0.0, -8.0, 0.0),
    });
    assert!(world.is_empty());
    assert_eq!(world.add_particle(v(0.0, 0.0, 0.0), Vector::zero(), n(1.0)), 0);
    assert_eq!(world.len(), 1);
    world.step(n(0.5));
    let p = world.particles[0];
    let own = 315.0 / (64.0 * pi);
    assert!(near(p.density, own));
    assert!(near(p.pressure, 2.0 * (own - 1.0)));
    // Alone it falls freely.
    assert_eq!(p.accel, v(0.0, -8.0, 0.0));
    assert_eq!(p.vel, v(0.0, -4.0, 0.0));
    assert_eq!(p.pos, v(0.0, -2.0, 0.0));
}

#[test]
fn surface_tension_pulls_towards_the_middle_of_the_neighbours() {
    let mut world = FluidWorld::new(FluidParams {
        smoothing_radius: n(1.0),
        gas_constant: n(0.0),
        rest_density: n(1.0),
        viscosity: n(0.0),
        surface_tension: n(4.0),
        gravity: Vector::zero(),
    });
    world.add_particle(v(0.0, 0.0, 0.0), Vector::zero(), n(1.0));
    world.add_particle(v(0.5, 0.0, 0.0), Vector::zero(), n(1.0));
    world.add_particle(v(9.0, 0.0, 0.0), Vector::zero(), n(1.0));
    world.step(n(0.5));
    assert_eq!(world.particles[0].accel, v(2.0, 0.0, 0.0));
    assert_eq!(world.particles[1].accel, v(-2.0, 0.0, 0.0));
    assert_eq!(world.particles[2].accel, v(0.0, 0.0, 0.0));
}

fn grains() -> GranularParams<Fixed> {
    GranularParams {
        gravity: Vector::zero(),
        normal_stiffness: n(100.0),
        normal_damping: n(2.0),
        tangential_damping: n(3.0),
        friction: n(0.5),
    }
}

#[test]
fn touching_grains_push_and_rub() {
    let mut p = GranularParticle::new(v(0.0, 0.0, 0.0), v(0.0, 1.0, 0.0), n(1.0), n(0.5));
    let q = GranularParticle::new(v(0.75, 0.0, 0.0), Vector::zero(), n(1.0), n(0.5));
    // Overlap 0.25: a push of 25; the rub of 3 is below its limit of 12.5.
    assert_eq!(contact_force(p, q, grains()), v(-25.0, -3.0, 0.0));
    // Fast sliding reaches the limit.
    p.vel = v(0.0, 8.0, 0.0);
    assert_eq!(contact_force(p, q, grains()), v(-25.0, -12.5, 0.0));
    // Approaching adds to the push, parting takes from it, and it never pulls.
    p.vel = v(4.0, 0.0, 0.0);
    assert_eq!(contact_force(p, q, grains()), v(-33.0, 0.0, 0.0));
    p.vel = v(-50.0, 0.0, 0.0);
    assert_eq!(contact_force(p, q, grains()), v(0.0, 0.0, 0.0));
}

#[test]
fn grains_act_on_each_other_with_opposite_forces() {
    let mut world = GranularWorld::new(grains());
    assert!(world.is_empty());
    world.add_particle(v(0.0, 0.0, 0.0), Vector::zero(), n(1.0), n(0.5));
    world.add_particle(v(0.75, 0.0, 0.0), Vector::zero(), n(2.0), n(0.5));
    assert_eq!(world.len(), 2);
    world.step(n(0.5));
    assert_eq!(world.particles[0].vel, v(-12.5, 0.0, 0.0));
    assert_eq!(world.particles[1].vel, v(6.25, 0.0, 0.0));
    assert_eq!(world.particles[0].pos, v(-6.25, 0.0, 0.0));
    assert_eq!((world.particles[0].mass, world.particles[0].radius), (n(1.0), n(0.5)));
}

#[test]
fn grains_touch_across_the_border_of_their_cells() {
    // Cells are one long: the grains lie in the cells -1 and 0 along every axis.
    let mut world = GranularWorld::new(grains());
    world.add_particle(v(-0.25, -0.25, -0.25), Vector::zero(), n(1.0), n(0.5));
    world.add_particle(v(0.25, 0.25, 0.25), Vector::zero(), n(1.0), n(0.5));
    world.step(n(0.5));
    let (a, b) = (world.particles[0].vel, world.particles[1].vel);
    assert!(a.x.raw < 0 && a.y.raw < 0 && a.z.raw < 0);
    assert_eq!(b, a.neg());
}

#[test]
fn reports_and_copies_keep_one_container_for_a_kind() {
    let mut bodies = RigidBodySet::new();
    let a = bodies.insert(body());
    let b = bodies.insert(body());
    for _ in 0..3 {
        bridge_solver_contact_forces(&vec![touching_pair(a, b)], &mut bodies, n(2.0));
    }
    let rb = bodies.get(a).unwrap();
    assert_eq!(rb.force_containers.len(), 2);
    let copy = rb.force_containers.clone();
    assert_eq!(copy.len(), 2);
    for i in 0..2 {
        assert_eq!(copy.at(i).kind(), rb.force_containers.at(i).kind());
        assert_eq!(copy.at(i).persistence(), Persistence::Transient);
        assert_eq!(copy.at(i).len(), rb.force_containers.at(i).len());
    }
    assert!(copy.at(0).kind() != copy.at(1).kind());
}
