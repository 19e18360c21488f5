//! Soft bodies on exact fixed-point numbers.
use dynakit::dynamics::rigid_body::{RigidBody, RigidBodySet, RigidBodyType};
use dynakit::dynamics::soft_body::constraints::{
    damp_contact_velocity, signed_tetra_volume, solve_distance_constraint, solve_volume_constraint,
};
use dynakit::dynamics::soft_body::refine::longest_edge;
use dynakit::dynamics::soft_body::{
    solve_cohesion, solve_cross_body_collisions, PlasticityParams, SoftBody, SoftBodyId,
    SoftBodySet, SoftParticle, SoftSolver,
};
use dynakit::fixed::Fixed;
use dynakit::math::{Pose, Rotation, Vector};
use dynakit::scalar::Real;

fn n(x: f64) -> Fixed {
    Fixed { raw: (x * 4294967296.0) as i64 }
}

fn v(x: f64, y: f64, z: f64) -> Vector<Fixed> {
    Vector { x: n(x), y: n(y), z: n(z) }
}

fn weightless(points: &[Vector<Fixed>]) -> SoftBody<Fixed> {
    let mut body = SoftBody::new(Vector::zero());
    for p in points {
        body.add_particle(*p);
    }
    body
}

fn fixed_body(x: f64, y: f64, z: f64) -> RigidBody<Fixed> {
    RigidBody::new(
        RigidBodyType::Dynamic,
        Pose { rotation: Rotation::identity(), translation: v(x, y, z) },
    )
}

#[test]
fn a_new_body_has_the_documented_settings() {
    let body: SoftBody<Fixed> = SoftBody::new(v(0.0, -10.0, 0.0));
    assert_eq!(body.gravity, v(0.0, -10.0, 0.0));
    assert_eq!(body.substeps, 1);
    assert_eq!(body.damping, n(0.0));
    assert!(!body.sleeping && !body.collide);
    assert!(matches!(body.solver, SoftSolver::MassSpring));
    assert!(body.tear_strain.is_none() && body.plasticity.is_none());
    assert!(body.self_collision.is_none() && body.cross_collision.is_none());
}

#[test]
fn a_particle_knows_its_mass() {
    let mut p = SoftParticle::new(v(1.0, 2.0, 3.0));
    assert_eq!(p.mass(), n(1.0));
    p.inv_mass = n(0.25);
    assert_eq!(p.mass(), n(4.0));
    assert!(p.is_free());
    assert_eq!(p.weight(), n(0.25));
    let p = SoftParticle::pinned(v(1.0, 2.0, 3.0));
    assert_eq!(p.mass(), n(0.0));
    assert!(p.is_pinned() && !p.is_free());
}

#[test]
fn a_spring_pulls_by_elongation_and_its_rate() {
    let mut body = weightless(&[v(0.0, 0.0, 0.0), v(2.0, 0.0, 0.0)]);
    assert_eq!(body.add_spring(0, 1, n(10.0), n(2.0)), Some(0));
    body.particles[1].pos = v(3.0, 0.0, 0.0);
    body.particles[1].vel = v(1.0, 5.0, 0.0);
    let f = body.spring_damping_forces();
    assert_eq!(f, vec![v(12.0, 0.0, 0.0), v(-12.0, 0.0, 0.0)]);
    // A pinned end gets none.
    body.particles[0].inv_mass = n(0.0);
    assert_eq!(body.spring_damping_forces(), vec![v(0.0, 0.0, 0.0), v(-12.0, 0.0, 0.0)]);
}

#[test]
fn springs_and_edges_need_two_places() {
    let mut body = weightless(&[v(0.0, 0.0, 0.0), v(0.0, 0.0, 0.0), v(1.0, 0.0, 0.0)]);
    assert_eq!(body.add_spring(0, 1, n(1.0), n(0.0)), None);
    assert_eq!(body.add_spring(0, 3, n(1.0), n(0.0)), None);
    assert_eq!(body.add_distance_constraint(1, 0, n(0.0)), None);
    assert_eq!(body.add_distance_constraint(4, 0, n(0.0)), None);
    assert_eq!(body.add_bending_constraint(0, 2), Some(0));
    assert_eq!(body.distance_constraints[0].compliance, n(0.0));
    assert_eq!(body.distance_constraints[0].rest, n(1.0));
    assert_eq!(body.add_distance_constraint(1, 2, n(0.5)), Some(1));
    assert_eq!(body.distance_constraints[1].compliance, n(0.5));
    assert_eq!(body.distance_constraints[1].compression, n(0.5));
}

#[test]
fn edges_without_a_compliance_get_that_of_the_solver() {
    let mut body = weightless(&[v(0.0, 0.0, 0.0), v(2.0, 0.0, 0.0), v(0.0, 2.0, 0.0)]);
    body.configure_xpbd(10, n(0.5));
    assert_eq!(body.add_bending_constraint(0, 1), Some(0));
    assert_eq!(body.add_triangle([0, 1, 2]), Some(0));
    assert_eq!(body.distance_constraints.len(), 3);
    for c in &body.distance_constraints {
        assert_eq!((c.compliance, c.compression), (n(0.5), n(0.5)));
    }
    assert_eq!(body.distance_constraints[0].rest, n(2.0));
}

#[test]
fn a_face_brings_its_missing_sides() {
    let mut body = weightless(&[v(0.0, 0.0, 0.0), v(3.0, 0.0, 0.0), v(0.0, 4.0, 0.0)]);
    body.add_distance_constraint(1, 0, n(0.25));
    assert_eq!(body.add_triangle([0, 1, 2]), Some(0));
    let edges: Vec<(usize, usize, Fixed)> =
        body.distance_constraints.iter().map(|c| (c.a, c.b, c.rest)).collect();
    assert_eq!(edges, vec![(1, 0, n(3.0)), (1, 2, n(5.0)), (2, 0, n(4.0))]);
    assert_eq!(body.distance_constraints[0].compliance, n(0.25));
    assert_eq!(body.add_triangle([0, 1, 1]), None);
    assert_eq!(body.add_triangle([0, 1, 3]), None);
    assert_eq!(body.add_tetrahedron([0, 1, 2, 2]), None);
    assert_eq!(body.add_tetrahedron([0, 1, 2, 3]), None);
}

#[test]
fn volumes_are_signed_and_their_magnitudes_add_up() {
    let corners = [v(0.0, 0.0, 0.0), v(6.0, 0.0, 0.0), v(0.0, 1.0, 0.0), v(0.0, 0.0, 1.0)];
    assert_eq!(signed_tetra_volume(corners[0], corners[1], corners[2], corners[3]), n(1.0));
    assert_eq!(signed_tetra_volume(corners[0], corners[2], corners[1], corners[3]), n(-1.0));
    let mut body = weightless(&corners);
    assert_eq!(body.add_tetrahedron([0, 1, 2, 3]), Some(0));
    assert_eq!(body.tetra_rest_volumes, vec![n(1.0)]);
    assert_eq!(body.total_volume(), n(1.0));
    body.particles[1].pos = v(3.0, 0.0, 0.0);
    assert_eq!(body.total_volume(), n(0.5));
    body.particles[1].pos = v(-12.0, 0.0, 0.0);
    assert_eq!(body.total_volume(), n(2.0));
    // What the element is held at does not matter.
    body.tetra_rest_volumes[0] = n(5.0);
    assert_eq!(body.total_volume(), n(2.0));
    let mut unit = weightless(&[
        v(0.0, 0.0, 0.0),
        v(1.0, 0.0, 0.0),
        v(0.0, 1.0, 0.0),
        v(0.0, 0.0, 1.0),
    ]);
    unit.add_tetrahedron([0, 1, 2, 3]);
    assert_eq!(unit.total_volume(), n(1.0).div(n(6.0)));
}

#[test]
fn a_length_is_restored_by_weight() {
    let mut body = weightless(&[v(0.0, 0.0, 0.0), v(4.0, 0.0, 0.0)]);
    let weights = vec![n(1.0), n(3.0)];
    let mut lambda = n(0.0);
    solve_distance_constraint(&mut body.particles, 0, 1, n(2.0), n(0.0), &weights, &mut lambda);
    assert_eq!(body.particles[0].pos, v(0.5, 0.0, 0.0));
    assert_eq!(body.particles[1].pos, v(2.5, 0.0, 0.0));
    assert_eq!(lambda, n(-0.5));
    // With compliance only a part of the way is made.
    let mut body = weightless(&[v(0.0, 0.0, 0.0), v(4.0, 0.0, 0.0)]);
    let weights = vec![n(1.0), n(1.0)];
    let mut lambda = n(0.0);
    solve_distance_constraint(&mut body.particles, 0, 1, n(2.0), n(2.0), &weights, &mut lambda);
    assert_eq!(body.particles[0].pos, v(0.5, 0.0, 0.0));
    assert_eq!(body.particles[1].pos, v(3.5, 0.0, 0.0));
}

#[test]
fn a_volume_moves_its_free_corner() {
    let mut body = weightless(&[
        v(0.0, 0.0, 0.0),
        v(6.0, 0.0, 0.0),
        v(0.0, 1.0, 0.0),
        v(0.0, 0.0, 2.0),
    ]);
    let weights = vec![n(0.0), n(0.0), n(0.0), n(1.0)];
    let mut lambda = n(0.0);
    // The volume is one too large; the last corner moves along (0, 2, 0).
    solve_volume_constraint(
        &mut body.particles,
        [0, 1, 2, 3],
        n(1.0),
        n(0.0),
        &weights,
        &mut lambda,
    );
    assert_eq!(body.particles[3].pos, v(0.0, -0.5, 2.0));
    assert_eq!(lambda, n(-0.25));
    assert_eq!(body.particles[1].pos, v(6.0, 0.0, 0.0));
}

#[test]
fn forces_come_from_gravity_wind_and_springs() {
    let mut body = SoftBody::new(v(0.0, -10.0, 0.0));
    body.add_particle(v(0.0, 0.0, 0.0));
    body.add_pinned(v(5.0, 0.0, 0.0));
    body.particles[0].inv_mass = n(0.5);
    body.particles[0].vel = v(4.0, 0.0, 0.0);
    body.apply_wind(v(2.0, 0.0, 0.0), n(0.25));
    body.compute_forces();
    // Mass two: weight 20, wind 4, drag 2.
    assert_eq!(body.particles[0].force, v(2.0, -20.0, 0.0));
    assert_eq!(body.particles[1].force, v(0.0, 0.0, 0.0));
    body.clear_wind();
    body.compute_forces();
    assert_eq!(body.particles[0].force, v(0.0, -20.0, 0.0));
}

#[test]
fn pressure_pushes_every_corner_of_a_face() {
    let mut body = weightless(&[v(0.0, 0.0, 0.0), v(2.0, 0.0, 0.0), v(0.0, 2.0, 0.0)]);
    body.add_triangle([0, 1, 2]);
    assert_eq!(body.pressure_forces(), vec![Vector::zero(); 3]);
    body.set_pressure(n(3.0));
    assert_eq!(body.pressure_forces(), vec![v(0.0, 0.0, 6.0); 3]);
    // A particle on that side turns the face outwards.
    body.add_particle(v(0.0, 0.0, 4.0));
    assert_eq!(body.pressure_forces()[0], v(0.0, 0.0, -6.0));
    assert_eq!(body.pressure_forces()[3], v(0.0, 0.0, 0.0));
    body.set_pressure(n(0.0));
    assert!(body.pressure.is_none());
    body.set_pressure(n(1.0));
    body.clear_pressure();
    assert!(body.pressure.is_none());
    let mut corner = weightless(&[v(0.0, 0.0, 0.0), v(1.0, 0.0, 0.0), v(0.0, 1.0, 0.0)]);
    corner.add_triangle([0, 1, 2]);
    corner.set_pressure(n(6.0));
    corner.compute_forces();
    for p in &corner.particles {
        assert_eq!(p.force, v(0.0, 0.0, 3.0));
    }
}

#[test]
fn integration_moves_velocity_first_and_damps_it() {
    let mut body = SoftBody::new(v(0.0, -8.0, 0.0));
    body.add_particle(v(0.0, 1.0, 0.0));
    body.compute_forces();
    body.integrate(n(0.5));
    assert_eq!(body.particles[0].vel, v(0.0, -4.0, 0.0));
    assert_eq!(body.particles[0].pos, v(0.0, -1.0, 0.0));
    assert!(body.set_damping(n(0.5)));
    body.compute_forces();
    body.integrate(n(0.5));
    assert_eq!(body.particles[0].vel, v(0.0, -4.0, 0.0));
    assert_eq!(body.particles[0].pos, v(0.0, -3.0, 0.0));
}

#[test]
fn energy_counts_movable_particles() {
    let mut body = weightless(&[v(0.0, 0.0, 0.0), v(1.0, 0.0, 0.0)]);
    body.particles[0].vel = v(3.0, 4.0, 0.0);
    assert_eq!(body.kinetic_energy(), n(12.5));
    body.particles[1].vel = v(1.0, 0.0, 0.0);
    body.particles[1].inv_mass = n(0.5);
    assert_eq!(body.kinetic_energy(), n(13.5));
    body.particles[0].inv_mass = n(0.0);
    assert_eq!(body.kinetic_energy(), n(1.0));
}

#[test]
fn a_step_in_parts_is_that_many_short_steps() {
    let mut parted = SoftBody::new(v(0.0, -10.0, 0.0));
    parted.add_particle(v(0.0, 0.0, 0.0));
    let mut short = parted.clone();
    assert!(parted.set_substeps(4));
    parted.step(n(1.0));
    for _ in 0..4 {
        short.step(n(0.25));
    }
    assert_eq!(parted.particles[0].pos, short.particles[0].pos);
    assert_eq!(parted.particles[0].vel, short.particles[0].vel);
    assert_eq!(parted.particles[0].pos, v(0.0, -6.25, 0.0));
    // A count of zero in the field itself counts as one.
    let mut whole = SoftBody::new(v(0.0, -10.0, 0.0));
    whole.add_particle(v(0.0, 0.0, 0.0));
    whole.substeps = 0;
    whole.step(n(1.0));
    assert_eq!(whole.particles[0].pos, v(0.0, -10.0, 0.0));
}

#[test]
fn overstretched_edges_snap_with_their_faces() {
    let mut body = weightless(&[
        v(0.0, 0.0, 0.0),
        v(2.0, 0.0, 0.0),
        v(0.0, 2.0, 0.0),
        v(-2.0, 0.0, 0.0),
    ]);
    body.add_triangle([0, 1, 2]);
    body.add_triangle([0, 2, 3]);
    body.add_spring(1, 3, n(1.0), n(0.0));
    body.particles[1].pos = v(3.0, 0.0, 0.0);
    // No tear strain is set.
    body.tear();
    assert_eq!(body.distance_constraints.len(), 5);
    body.set_tear_strain(Some(n(0.5)));
    body.tear();
    assert_eq!(body.distance_constraints.len(), 5);
    body.particles[1].pos = v(3.25, 0.0, 0.0);
    body.tear();
    let edges: Vec<(usize, usize)> =
        body.distance_constraints.iter().map(|c| (c.a, c.b)).collect();
    assert_eq!(edges, vec![(1, 2), (2, 0), (2, 3), (3, 0)]);
    assert_eq!(body.triangles, vec![[0, 2, 3]]);
    assert_eq!(body.springs.len(), 1);
    // Nothing more snaps where the body stands.
    let before = body.distance_constraints.len();
    body.tear();
    assert_eq!(body.distance_constraints.len(), before);
    assert_eq!(body.triangles.len(), 1);
}

#[test]
fn without_tolerance_any_stretch_snaps_an_edge() {
    let mut body = weightless(&[v(0.0, 0.0, 0.0), v(2.0, 0.0, 0.0), v(5.0, 0.0, 0.0)]);
    body.add_distance_constraint(0, 1, n(0.0));
    body.add_distance_constraint(1, 2, n(0.0));
    body.particles[2].pos = v(5.25, 0.0, 0.0);
    body.set_tear_strain(Some(n(0.0)));
    body.tear();
    assert_eq!(body.distance_constraints.len(), 1);
    assert_eq!(body.distance_constraints[0].b, 1);
}

#[test]
fn overstrained_edges_keep_a_share_of_their_elongation() {
    let mut body = weightless(&[v(0.0, 0.0, 0.0), v(2.0, 0.0, 0.0)]);
    body.add_distance_constraint(0, 1, n(0.0));
    body.add_spring(0, 1, n(1.0), n(0.0));
    body.particles[1].pos = v(3.0, 0.0, 0.0);
    body.set_plasticity(Some(PlasticityParams { yield_strain: n(0.5), creep: n(0.5) }));
    body.apply_plasticity();
    assert_eq!(body.distance_constraints[0].rest, n(2.0));
    body.set_plasticity(Some(PlasticityParams { yield_strain: n(0.25), creep: n(0.5) }));
    body.apply_plasticity();
    assert_eq!(body.distance_constraints[0].rest, n(2.5));
    assert_eq!(body.springs[0].rest_length, n(2.5));
    // Without a yield strain every deformation counts.
    body.set_plasticity(Some(PlasticityParams { yield_strain: n(-1.0), creep: n(1.0) }));
    body.apply_plasticity();
    assert_eq!(body.distance_constraints[0].rest, n(3.0));
    body.particles[1].pos = v(9.0, 0.0, 0.0);
    body.set_plasticity(Some(PlasticityParams { yield_strain: n(0.0), creep: n(0.0) }));
    body.apply_plasticity();
    assert_eq!(body.distance_constraints[0].rest, n(3.0));
    body.set_plasticity(Some(PlasticityParams { yield_strain: n(0.0), creep: n(7.0) }));
    assert_eq!(body.plasticity.unwrap().creep, n(1.0));
}

#[test]
fn removing_a_particle_renumbers_what_is_left() {
    let mut body = weightless(&[
        v(0.0, 0.0, 0.0),
        v(1.0, 0.0, 0.0),
        v(0.0, 1.0, 0.0),
        v(0.0, 0.0, 1.0),
    ]);
    body.add_spring(0, 1, n(1.0), n(0.0));
    body.add_spring(2, 3, n(1.0), n(0.0));
    body.add_distance_constraint(1, 3, n(0.0));
    body.add_tetrahedron([0, 1, 2, 3]);
    body.add_triangle([1, 2, 3]);
    assert!(!body.remove_particle(4));
    assert_eq!(body.particles.len(), 4);
    assert!(body.remove_particle(0));
    assert_eq!(body.particles.len(), 3);
    assert_eq!(body.particles[0].pos, v(1.0, 0.0, 0.0));
    assert_eq!(body.springs.len(), 1);
    assert_eq!((body.springs[0].a, body.springs[0].b), (1, 2));
    let edges: Vec<(usize, usize)> =
        body.distance_constraints.iter().map(|c| (c.a, c.b)).collect();
    assert_eq!(edges, vec![(0, 2), (0, 1), (1, 2)]);
    assert_eq!(body.triangles, vec![[0, 1, 2]]);
    assert!(body.tetrahedra.is_empty() && body.tetra_rest_volumes.is_empty());
}

#[test]
fn large_volume_elements_are_split_in_four() {
    let corners = [v(0.0, 0.0, 0.0), v(6.0, 0.0, 0.0), v(0.0, 8.0, 0.0), v(0.0, 0.0, 4.0)];
    assert_eq!(longest_edge(corners[0], corners[1], corners[2], corners[3]), n(10.0));
    let mut body = weightless(&corners);
    body.particles[0].inv_mass = n(0.0);
    body.add_tetrahedron([0, 1, 2, 3]);
    assert_eq!(body.subdivide_tetrahedra(n(10.0)), 0);
    assert_eq!(body.subdivide_tetrahedra(n(9.0)), 1);
    assert_eq!(body.particles[4].pos, v(1.5, 2.0, 1.0));
    assert_eq!(body.particles[4].inv_mass, n(0.75));
    assert_eq!(
        body.tetrahedra,
        vec![[4, 0, 2, 1], [4, 0, 1, 3], [4, 0, 3, 2], [4, 1, 2, 3]]
    );
    assert_eq!(body.tetra_rest_volumes, vec![n(8.0); 4]);
    // Each part has the volume that it is held at.
    for (t, rest) in body.tetrahedra.iter().zip(&body.tetra_rest_volumes) {
        let at = |k: usize| body.particles[t[k] as usize].pos;
        assert_eq!(signed_tetra_volume(at(0), at(1), at(2), at(3)), *rest);
    }
    // Without a limit all are split.
    assert_eq!(body.subdivide_tetrahedra(Fixed::infinity()), 4);
    assert_eq!(body.tetrahedra.len(), 16);
}

#[test]
fn close_particles_of_one_body_repel_each_other() {
    let mut body = weightless(&[v(0.0, 0.0, 0.0), v(0.5, 0.0, 0.0), v(4.0, 0.0, 0.0)]);
    assert!(body.solve_self_collisions(n(0.0)).is_empty());
    assert!(body.set_self_collision(n(0.5), n(0.0)));
    let contacts = body.solve_self_collisions(n(0.0));
    assert_eq!(contacts, vec![(0, 1)]);
    assert_eq!(body.particles[0].pos, v(-0.25, 0.0, 0.0));
    assert_eq!(body.particles[1].pos, v(0.75, 0.0, 0.0));
    assert_eq!(body.particles[2].pos, v(4.0, 0.0, 0.0));
    // They now touch, and are left alone.
    body.solve_self_collisions(n(0.0));
    assert_eq!(body.particles[0].pos, v(-0.25, 0.0, 0.0));

    // An edge between two particles keeps them from repelling each other.
    let mut joined = weightless(&[v(0.0, 0.0, 0.0), v(0.5, 0.0, 0.0)]);
    joined.set_self_collision(n(0.5), n(0.0));
    joined.add_distance_constraint(0, 1, n(0.0));
    assert!(joined.solve_self_collisions(n(0.0)).is_empty());
    assert_eq!(joined.particles[1].pos, v(0.5, 0.0, 0.0));

    // So does being pinned or anchored.
    let mut rigid = RigidBodySet::new();
    let h = rigid.insert(fixed_body(0.0, 0.0, 0.0));
    let mut held = weightless(&[v(0.0, 0.0, 0.0), v(0.5, 0.0, 0.0), v(0.25, 0.0, 0.0)]);
    held.set_self_collision(n(0.5), n(0.0));
    held.particles[0].inv_mass = n(0.0);
    assert!(held.attach_particle(1, h, v(0.5, 0.0, 0.0), &rigid));
    assert!(held.solve_self_collisions(n(0.0)).is_empty());
    assert_eq!(held.particles[2].pos, v(0.25, 0.0, 0.0));
}

#[test]
fn friction_takes_tangential_velocity_only() {
    let mut body = weightless(&[v(0.0, 0.0, 0.0), v(1.0, 0.0, 0.0)]);
    body.particles[0].vel = v(2.0, 1.0, 0.0);
    damp_contact_velocity(&mut body.particles, 0, 1, n(0.5));
    assert_eq!(body.particles[0].vel, v(2.0, 0.75, 0.0));
    assert_eq!(body.particles[1].vel, v(0.0, 0.25, 0.0));
}

fn pair(x: f64) -> (SoftBodySet<Fixed>, SoftBodyId, SoftBodyId) {
    let mut set = SoftBodySet::new();
    let a = set.insert(weightless(&[v(0.0, 0.0, 0.0)]));
    let b = set.insert(weightless(&[v(x, 0.0, 0.0)]));
    (set, a, b)
}

#[test]
fn particles_of_two_bodies_collide_if_both_take_part() {
    let (mut set, a, b) = pair(0.5);
    set.get_mut(a).unwrap().set_cross_collision(n(0.5), n(0.0));
    solve_cross_body_collisions(&mut set, n(1.0));
    assert_eq!(set.get(a).unwrap().particles[0].pos, v(0.0, 0.0, 0.0));
    set.get_mut(b).unwrap().set_cross_collision(n(2.0), n(0.0));
    // The smaller radius counts.
    solve_cross_body_collisions(&mut set, n(1.0));
    assert_eq!(set.get(a).unwrap().particles[0].pos, v(-0.25, 0.0, 0.0));
    assert_eq!(set.get(b).unwrap().particles[0].pos, v(0.75, 0.0, 0.0));
}

#[test]
fn no_pair_is_missed_at_the_border_of_its_cells() {
    // One step below zero, and almost the whole distance above it.
    let low = Vector { x: Fixed { raw: -1 }, ..v(0.0, 0.0, 0.0) };
    let mut body = weightless(&[low, v(0.875, 0.0, 0.0)]);
    body.set_self_collision(n(0.5), n(0.0));
    assert_eq!(body.solve_self_collisions(n(0.0)), vec![(0, 1)]);
    // Where nothing is reported, nothing is close.
    let mut apart = weightless(&[low, v(1.0, 0.0, 0.0)]);
    apart.set_self_collision(n(0.5), n(0.0));
    assert!(apart.solve_self_collisions(n(0.0)).is_empty());

    let (mut set, a, b) = pair(0.875);
    set.get_mut(a).unwrap().particles[0].pos = low;
    for id in [a, b] {
        set.get_mut(id).unwrap().set_cross_collision(n(0.5), n(0.0));
    }
    solve_cross_body_collisions(&mut set, n(1.0));
    assert!(set.get(a).unwrap().particles[0].pos.x.raw < -1);
}

#[test]
fn without_friction_meeting_bodies_keep_their_velocities() {
    let (mut set, a, b) = pair(0.5);
    for (id, speed) in [(a, 1.0), (b, -2.0)] {
        let body = set.get_mut(id).unwrap();
        body.set_cross_collision(n(0.5), n(0.0));
        body.set_cohesion(n(2.0), n(0.0), Fixed::infinity());
        body.particles[0].vel = v(speed, speed, 0.0);
    }
    solve_cross_body_collisions(&mut set, n(1.0));
    solve_cohesion(&mut set, n(1.0));
    assert_eq!(set.get(a).unwrap().particles[0].pos, v(-0.75, 0.0, 0.0));
    assert_eq!(set.get(a).unwrap().particles[0].vel, v(1.0, 1.0, 0.0));
    assert_eq!(set.get(b).unwrap().particles[0].vel, v(-2.0, -2.0, 0.0));
}

#[test]
fn a_body_that_takes_part_alone_meets_nobody() {
    let (mut set, a, b) = pair(0.5);
    set.get_mut(a).unwrap().set_cross_collision(n(0.5), n(0.0));
    set.get_mut(b).unwrap().set_cohesion(n(2.0), n(0.0), Fixed::infinity());
    solve_cross_body_collisions(&mut set, n(1.0));
    solve_cohesion(&mut set, n(1.0));
    assert_eq!(set.get(a).unwrap().particles[0].pos, v(0.0, 0.0, 0.0));
    assert_eq!(set.get(b).unwrap().particles[0].pos, v(0.5, 0.0, 0.0));
}

#[test]
fn springs_pull_their_movable_ends_and_nothing_else() {
    let mut body = weightless(&[v(0.0, 0.0, 0.0), v(2.0, 0.0, 0.0), v(9.0, 0.0, 0.0)]);
    body.add_spring(0, 1, n(8.0), n(0.0));
    body.springs[0].rest_length = n(1.0);
    body.particles[0].inv_mass = n(0.0);
    let forces = body.spring_damping_forces();
    assert_eq!(forces, vec![v(0.0, 0.0, 0.0), v(-8.0, 0.0, 0.0), v(0.0, 0.0, 0.0)]);
}

#[test]
fn cohesion_holds_particles_within_its_radius() {
    // Beyond the radius nothing is captured.
    let (mut far, c, d) = pair(1.5);
    for id in [c, d] {
        assert!(far.get_mut(id).unwrap().set_cohesion(n(1.0), n(0.0), Fixed::infinity()));
    }
    solve_cohesion(&mut far, n(0.5));
    assert_eq!(far.get(c).unwrap().particles[0].pos, v(0.0, 0.0, 0.0));
    assert_eq!(far.get(d).unwrap().particles[0].pos, v(1.5, 0.0, 0.0));
    // Within it the pair is brought to the smaller radius.
    let (mut set, a, b) = pair(0.75);
    assert!(set.get_mut(a).unwrap().set_cohesion(n(1.0), n(0.0), n(4.0)));
    solve_cohesion(&mut set, n(1.0));
    assert_eq!(set.get(b).unwrap().particles[0].pos, v(0.75, 0.0, 0.0));
    assert!(set.get_mut(b).unwrap().set_cohesion(n(2.0), n(0.0), Fixed::infinity()));
    solve_cohesion(&mut set, n(1.0));
    assert_eq!(set.get(a).unwrap().particles[0].pos, v(-0.125, 0.0, 0.0));
    assert_eq!(set.get(b).unwrap().particles[0].pos, v(0.875, 0.0, 0.0));
}

#[test]
fn an_anchored_particle_goes_with_its_body() {
    let mut rigid = RigidBodySet::new();
    let h = rigid.insert(fixed_body(1.0, 0.0, 0.0));
    let mut set = SoftBodySet::new();
    let id = set.insert(weightless(&[v(2.0, 0.0, 0.0)]));
    let body = set.get_mut(id).unwrap();
    assert!(!body.attach_particle(1, h, v(2.0, 0.0, 0.0), &rigid));
    assert!(body.attach_particle(0, h, v(2.0, 0.0, 0.0), &rigid));
    assert_eq!(body.particles[0].bound_local, v(1.0, 0.0, 0.0));
    let rb = rigid.get_mut(h).unwrap();
    rb.position.translation = v(5.0, 0.0, 0.0);
    rb.mprops.world_com = v(5.0, 0.0, 0.0);
    rb.linvel = v(0.0, 3.0, 0.0);
    rb.angvel = v(0.0, 0.0, 2.0);
    set.follow_rigid_bodies(&rigid);
    let p = set.get(id).unwrap().particles[0];
    assert_eq!(p.pos, v(6.0, 0.0, 0.0));
    assert_eq!(p.vel, v(0.0, 5.0, 0.0));
    // The solver does not move it.
    set.get_mut(id).unwrap().gravity = v(0.0, -10.0, 0.0);
    set.step(n(1.0));
    assert_eq!(set.get(id).unwrap().particles[0].pos, v(6.0, 0.0, 0.0));
    assert!(set.get_mut(id).unwrap().detach_particle(0));
    assert!(!set.get_mut(id).unwrap().detach_particle(1));
    rigid.get_mut(h).unwrap().position.translation = v(9.0, 0.0, 0.0);
    set.follow_rigid_bodies(&rigid);
    assert_eq!(set.get(id).unwrap().particles[0].pos, v(6.0, 0.0, 0.0));
}

#[test]
fn a_sleeping_body_is_left_as_it_is() {
    let mut set = SoftBodySet::new();
    let mut body = weightless(&[v(0.0, 0.0, 0.0)]);
    body.gravity = v(0.0, -10.0, 0.0);
    let id = set.insert(body);
    assert!(set.sleep(id));
    assert!(set.is_sleeping(id));
    set.step(n(1.0));
    assert_eq!(set.get(id).unwrap().particles[0].pos, v(0.0, 0.0, 0.0));
    assert!(set.wake(id));
    set.step(n(1.0));
    assert_eq!(set.get(id).unwrap().particles[0].pos, v(0.0, -10.0, 0.0));
    assert!(!set.sleep(SoftBodyId(7)) && !set.wake(SoftBodyId(7)));
    assert!(!set.is_sleeping(SoftBodyId(7)));
}

#[test]
fn a_body_moved_from_outside_is_not_advanced() {
    let mut body = weightless(&[v(0.0, 0.0, 0.0), v(1.0, 0.0, 0.0)]);
    body.gravity = v(0.0, -10.0, 0.0);
    body.collide = true;
    body.add_distance_constraint(0, 1, n(0.0));
    body.set_tear_strain(Some(n(0.5)));
    body.particles[1].pos = v(4.0, 0.0, 0.0);
    body.step(n(1.0));
    assert_eq!(body.particles[0].pos, v(0.0, 0.0, 0.0));
    // It still tears.
    assert!(body.distance_constraints.is_empty());
}

#[test]
fn springs_without_both_ends_exert_nothing() {
    let mut body = weightless(&[v(0.0, 0.0, 0.0), v(1.0, 0.0, 0.0), v(2.0, 0.0, 0.0)]);
    body.add_spring(0, 2, n(1.0), n(0.0));
    body.add_distance_constraint(0, 2, n(0.0));
    body.particles.pop();
    // The mass-spring solver does not look at edges, and skips such a spring.
    body.gravity = v(0.0, -8.0, 0.0);
    body.step(n(0.5));
    assert_eq!(body.particles[0].pos, v(0.0, -2.0, 0.0));
    assert_eq!(body.distance_constraints.len(), 1);
    // Tearing drops both.
    body.set_tear_strain(Some(n(1.0)));
    body.step(n(0.5));
    assert!(body.distance_constraints.is_empty() && body.springs.is_empty());
    // What is left suits the position solver too.
    body.configure_xpbd(2, n(0.0));
    body.step(n(0.5));
    assert_eq!(body.particles[0].vel, v(0.0, -12.0, 0.0));
}

#[test]
fn the_position_solver_holds_an_edge() {
    let mut body = weightless(&[v(0.0, 0.0, 0.0), v(1.0, 0.0, 0.0)]);
    body.add_distance_constraint(0, 1, n(0.0));
    body.configure_xpbd(4, n(0.5));
    assert_eq!(body.xpbd_alpha(n(0.5)), n(2.0));
    body.configure_xpbd(4, n(0.0));
    body.particles[1].pos = v(2.0, 0.0, 0.0);
    body.step(n(0.5));
    assert_eq!(body.particles[0].pos, v(0.5, 0.0, 0.0));
    assert_eq!(body.particles[1].pos, v(1.5, 0.0, 0.0));
    // The velocity is what the particle moved in the step.
    assert_eq!(body.particles[0].vel, v(1.0, 0.0, 0.0));
}

#[test]
fn an_id_names_one_body_for_good() {
    let (mut set, a, b) = pair(1.0);
    assert_eq!((set.len(), set.count(), set.is_empty()), (2, 2, false));
    assert!(set.remove(a));
    assert!(!set.remove(a));
    assert!(set.get(a).is_none() && set.get_mut(a).is_none());
    let c = set.insert(weightless(&[]));
    assert_ne!(c, a);
    assert_ne!(c, b);
    let ids: Vec<SoftBodyId> = set.iter().iter().map(|(id, _)| *id).collect();
    assert_eq!(ids, vec![b, c]);
    assert_eq!(set.count(), 2);
    {
        let (x, y) = set.get2_mut(c, b);
        assert_eq!(x.unwrap().particles.len(), 0);
        assert_eq!(y.unwrap().particles.len(), 1);
    }
    {
        let (x, y) = set.get2_mut(b, a);
        assert!(x.is_none() && y.is_none());
    }
    let (x, y) = set.get2_mut(b, b);
    assert!(x.is_none() && y.is_none());
}

#[test]
fn settings_out_of_range_are_refused() {
    let mut body = weightless(&[v(0.0, 0.0, 0.0), v(1.0, 0.0, 0.0)]);
    assert!(!body.set_self_collision(n(0.0), n(0.0)));
    assert!(!body.set_self_collision(n(1.0), n(-1.0)));
    assert!(!body.set_self_collision_friction(n(0.5)));
    assert!(body.set_self_collision(n(1.0), n(0.25)));
    assert!(body.set_self_collision_friction(n(0.5)));
    assert!(!body.set_self_collision_friction(n(1.5)));
    assert_eq!(body.self_collision.unwrap().friction, Some(n(0.5)));
    body.clear_self_collision();
    assert!(body.self_collision.is_none());
    assert!(!body.set_cross_collision(n(-1.0), n(0.0)));
    assert!(!body.set_cross_collision_friction(n(0.5)));
    assert!(body.set_cross_collision(n(1.0), n(0.0)));
    assert!(!body.set_cross_collision_friction(n(-0.5)));
    assert!(body.set_cross_collision_friction(n(1.0)));
    body.clear_cross_collision();
    assert!(body.cross_collision.is_none());
    assert!(!body.set_volume_conservation(n(-1.0)));
    assert!(!body.set_volume_conservation(Fixed::infinity()));
    assert!(body.set_volume_conservation(n(0.0)));
    body.clear_volume_conservation();
    assert!(body.volume_conservation.is_none());
    assert!(!body.set_cohesion(n(1.0), n(0.0), n(1.0)));
    assert!(!body.set_cohesion(n(1.0), n(-1.0), n(2.0)));
    assert!(!body.set_cohesion(n(0.0), n(0.0), n(2.0)));
    assert!(!body.set_cohesion(Fixed::infinity(), n(0.0), Fixed::infinity()));
    assert!(body.set_cohesion(n(1.0), Fixed::infinity(), n(2.0)));
    assert!(body.set_cohesion(n(1.0), n(0.0), n(2.0)));
    body.clear_cohesion();
    assert!(body.cohesion.is_none());
    assert!(!body.set_damping(n(1.0)));
    assert!(!body.set_damping(n(-0.5)));
    assert!(body.set_damping(n(0.5)));
    assert!(!body.set_substeps(0));
    assert!(body.set_substeps(2));
    assert!(!body.set_spring_stiffness(0, n(1.0)));
    body.add_spring(0, 1, n(1.0), n(0.0));
    assert!(!body.set_spring_stiffness(0, n(-1.0)));
    assert!(body.set_spring_stiffness(0, n(3.0)));
    assert_eq!(body.springs[0].stiffness, n(3.0));
    assert!(!body.set_distance_constraint_compliance(0, n(1.0)));
    body.add_distance_constraint(0, 1, n(0.0));
    assert!(!body.set_distance_constraint_compliance(0, n(-1.0)));
    assert!(body.set_distance_constraint_compliance(0, n(2.0)));
    assert_eq!(body.distance_constraints[0].compression, n(2.0));
    assert!(!body.set_distance_constraint_compression(1, n(1.0)));
    assert!(body.set_distance_constraint_compression(0, n(4.0)));
    assert_eq!(body.distance_constraints[0].compliance, n(2.0));
    assert_eq!(body.distance_constraints[0].compression, n(4.0));
}

/// A scattered but repeatable number in `[-2, 2)`.
fn scattered(seed: &mut u64) -> Fixed {
    *seed = seed.wrapping_mul(6364136223846793005).wrapping_add(1442695040888963407);
    Fixed { raw: (*seed >> 30) as i64 - (1 << 33) }
}

fn cloud(count: usize, seed: u64) -> Vec<Vector<Fixed>> {
    let mut s = seed;
    (0..count)
        .map(|_| Vector { x: scattered(&mut s), y: scattered(&mut s), z: scattered(&mut s) })
        .collect()
}

#[test]
fn springs_between_movable_particles_add_no_force_to_the_body() {
    let mut body = weightless(&cloud(6, 3));
    for (a, b) in [(0, 1), (1, 2), (2, 3), (3, 4), (4, 5), (5, 0), (0, 3)] {
        body.add_spring(a, b, n(3.7), n(0.3));
    }
    for (p, q) in body.particles.iter_mut().zip(cloud(6, 99)) {
        p.pos = q;
        p.vel = Vector { x: q.y, y: q.z, z: q.x };
    }
    let forces = body.spring_damping_forces();
    assert!(forces.iter().any(|f| f.x.raw != 0));
    let sum = |axis: fn(&Vector<Fixed>) -> i64| forces.iter().map(axis).sum::<i64>();
    assert_eq!((sum(|f| f.x.raw), sum(|f| f.y.raw), sum(|f| f.z.raw)), (0, 0, 0));
}

#[test]
fn creep_never_overshoots_the_present_length() {
    let mut body = weightless(&cloud(8, 5));
    for k in 0..7 {
        body.add_distance_constraint(k, k + 1, n(0.0));
        body.add_spring(k, k + 1, n(1.0), n(0.0));
    }
    for (p, q) in body.particles.iter_mut().zip(cloud(8, 6)) {
        p.pos = q;
    }
    for creep in [0.1, 1.0 / 3.0, 0.999, 1.0] {
        body.set_plasticity(Some(PlasticityParams { yield_strain: n(0.0), creep: n(creep) }));
        let before: Vec<i64> = body.distance_constraints.iter().map(|c| c.rest.raw).collect();
        body.apply_plasticity();
        for (c, old) in body.distance_constraints.iter().zip(before) {
            let len = body.particles[c.a].pos.sub(body.particles[c.b].pos).length().raw;
            assert!(old.min(len) <= c.rest.raw && c.rest.raw <= old.max(len));
        }
    }
    // With a full creep the present length is taken over.
    for s in &body.springs {
        assert_eq!(s.rest_length, body.particles[s.a].pos.sub(body.particles[s.b].pos).length());
    }
}

#[test]
fn split_elements_keep_their_volume_and_their_sign() {
    let mut body = weightless(&cloud(9, 17));
    for t in [[0, 1, 2, 3], [3, 2, 1, 4], [5, 6, 7, 8], [0, 8, 4, 6]] {
        body.add_tetrahedron(t);
    }
    let whole = body.tetra_rest_volumes.clone();
    assert!(whole.iter().any(|r| r.raw < 0) && whole.iter().any(|r| r.raw > 0));
    assert_eq!(body.subdivide_tetrahedra(Fixed::infinity()), 4);
    let sum = |rests: &[Fixed]| rests.iter().map(|r| r.raw).sum::<i64>();
    assert!((sum(&body.tetra_rest_volumes) - sum(&whole)).abs() <= 3 * 4);
    // No element is wider than four along an axis.
    let bound = 9 * 16 + 5 * 4;
    for (k, t) in body.tetrahedra.iter().enumerate() {
        let at = |i: usize| body.particles[t[i] as usize].pos;
        let part = signed_tetra_volume(at(0), at(1), at(2), at(3)).raw;
        assert!((4 * part - whole[k / 4].raw).abs() <= bound + 7);
        assert!((4 * (part - body.tetra_rest_volumes[k].raw)).abs() <= bound + 10);
    }
}

#[test]
fn meeting_bodies_keep_their_common_centre() {
    let mut set = SoftBodySet::new();
    for seed in [1, 2, 3] {
        let mut body = weightless(&cloud(5, seed));
        for (k, p) in body.particles.iter_mut().enumerate() {
            p.inv_mass = n([1.0, 0.5, 0.25, 2.0, 0.125][k]);
        }
        body.set_cross_collision(n(0.75), n(0.0));
        assert!(body.set_cohesion(n(1.5), n(0.001), Fixed::infinity()));
        set.insert(body);
    }
    let ids: Vec<SoftBodyId> = (0..3).map(SoftBodyId).collect();
    // Masses in parts of which eight make up the heaviest particle.
    let moment = |set: &SoftBodySet<Fixed>, axis: fn(&Vector<Fixed>) -> i64| -> i128 {
        ids.iter()
            .flat_map(|id| set.get(*id).unwrap().particles.clone())
            .map(|p| ((1i128 << 33) / p.inv_mass.raw as i128) * axis(&p.pos) as i128)
            .sum()
    };
    let axes: [fn(&Vector<Fixed>) -> i64; 3] = [|q| q.x.raw, |q| q.y.raw, |q| q.z.raw];
    let before = axes.map(|axis| moment(&set, axis));
    let start: Vec<_> =
        ids.iter().map(|id| set.get(*id).unwrap().particles[0].pos).collect();
    solve_cross_body_collisions(&mut set, n(0.5));
    solve_cohesion(&mut set, n(0.5));
    let end: Vec<_> = ids.iter().map(|id| set.get(*id).unwrap().particles[0].pos).collect();
    assert_ne!(start, end);
    // At most three passes over three pairs of bodies, twenty-five pairs of particles each, in
    // two calls; the heaviest particle has sixteen parts.
    let bound = 6 * 16 * (2 * 3 * 3 * 25);
    for (axis, old) in axes.iter().zip(before) {
        assert!((moment(&set, *axis) - old).abs() <= bound);
    }
}

#[test]
fn an_attached_particle_is_put_back_where_it_was_attached() {
    let mut rigid = RigidBodySet::new();
    let h = rigid.insert(fixed_body(1.0, -2.0, 0.5));
    // A third of a turn about a diagonal, and a small one about another axis.
    for (rotation, squared) in [
        (Rotation { v: v(0.5, 0.5, 0.5), w: n(0.5) }, 0),
        (Rotation { v: v(0.0, 0.28, 0.0), w: n(0.96) }, 3),
    ] {
        rigid.get_mut(h).unwrap().position.rotation = rotation;
        let mut set = SoftBodySet::new();
        let id = set.insert(weightless(&[v(0.0, 0.0, 0.0)]));
        for point in cloud(20, 42) {
            assert!(set.get_mut(id).unwrap().attach_particle(0, h, point, &rigid));
            set.follow_rigid_bodies(&rigid);
            let p = set.get(id).unwrap().particles[0].pos;
            // No point is more than four away from the body along an axis.
            let bound = (416 + 3 * squared) * 4 + 1219;
            for off in [p.x.raw - point.x.raw, p.y.raw - point.y.raw, p.z.raw - point.z.raw] {
                assert!(off.abs() <= bound);
            }
        }
    }
}
