//! What summing the forces on a body is for, where arithmetic does not round.
use vstd::prelude::*;
use crate::dynamics::force_containers;
use crate::dynamics::force_containers::{
    ContactPair, ContainerState, EffectiveForce, ForceEntry, ForceKind, PairForce, Persistence,
    SolverContact,
};
use crate::dynamics::rigid_body;
use crate::dynamics::rigid_body::{BodyModel, RigidBodyHandle, RigidBodyMassProps, SlotModel};
use crate::math::{AngVector, Vector};
use crate::reals;
use crate::reals::{arrow, unrounded, Arrow};
use crate::scalar::Real;

verus! {

/// The moment of a force about a point: its torque, and what its lever arm and the force span.
pub open spec fn moment<R: Real>(v: spec_fn(R) -> real, e: ForceEntry<R>, about: Arrow) -> Arrow {
    match e.point {
        Some(p) => arrow(v, e.torque).plus(
            arrow(v, p).minus(about).across(arrow(v, e.force)),
        ),
        None => arrow(v, e.torque),
    }
}

/// What the first `n` forces add up to.
spec fn forces_of<R: Real>(v: spec_fn(R) -> real, entries: Seq<ForceEntry<R>>, n: nat) -> Arrow
    decreases n,
{
    if n == 0 {
        Arrow::none()
    } else {
        forces_of(v, entries, (n - 1) as nat).plus(arrow(v, entries[n - 1].force))
    }
}

/// What the moments of the first `n` forces add up to.
spec fn moments_of<R: Real>(
    v: spec_fn(R) -> real,
    entries: Seq<ForceEntry<R>>,
    about: Arrow,
    n: nat,
) -> Arrow
    decreases n,
{
    if n == 0 {
        Arrow::none()
    } else {
        moments_of(v, entries, about, (n - 1) as nat).plus(moment(v, entries[n - 1], about))
    }
}

spec fn all_forces<R: Real>(v: spec_fn(R) -> real, s: Seq<ContainerState<R>>, n: nat) -> Arrow
    decreases n,
{
    if n == 0 {
        Arrow::none()
    } else if s[n - 1].kind.is_observation() {
        all_forces(v, s, (n - 1) as nat)
    } else {
        all_forces(v, s, (n - 1) as nat).plus(
            forces_of(v, s[n - 1].entries, s[n - 1].entries.len()),
        )
    }
}

spec fn all_moments<R: Real>(
    v: spec_fn(R) -> real,
    s: Seq<ContainerState<R>>,
    about: Arrow,
    n: nat,
) -> Arrow
    decreases n,
{
    if n == 0 {
        Arrow::none()
    } else if s[n - 1].kind.is_observation() {
        all_moments(v, s, about, (n - 1) as nat)
    } else {
        all_moments(v, s, about, (n - 1) as nat).plus(
            moments_of(v, s[n - 1].entries, about, s[n - 1].entries.len()),
        )
    }
}

proof fn lemma_entries_read<R: Real>(
    v: spec_fn(R) -> real,
    start: EffectiveForce<R>,
    entries: Seq<ForceEntry<R>>,
    com: Vector<R>,
    n: nat,
)
    requires
        unrounded(v),
    ensures
        ({
            let out = force_containers::entries_sum(start, entries, com, n);
            &&& arrow(v, out.force) == arrow(v, start.force).plus(forces_of(v, entries, n))
            &&& arrow(v, out.torque) == arrow(v, start.torque).plus(
                moments_of(v, entries, arrow(v, com), n),
            )
        }),
    decreases n,
{
    if n > 0 {
        lemma_entries_read(v, start, entries, com, (n - 1) as nat);
        let e = entries[n - 1];
        let before = force_containers::entries_sum(start, entries, com, (n - 1) as nat);
        reals::lemma_vectors(v, before.force, e.force, R::zero());
        reals::lemma_vectors(v, before.torque, e.torque, R::zero());
        if let Some(p) = e.point {
            reals::lemma_vectors(v, p, com, R::zero());
            reals::lemma_vectors(v, p.sub(com), e.force, R::zero());
            reals::lemma_vectors(
                v,
                before.torque.add(e.torque),
                p.sub(com).cross(e.force),
                R::zero(),
            );
        }
    }
}

proof fn lemma_containers_read<R: Real>(
    v: spec_fn(R) -> real,
    start: EffectiveForce<R>,
    s: Seq<ContainerState<R>>,
    com: Vector<R>,
    n: nat,
)
    requires
        unrounded(v),
    ensures
        ({
            let out = force_containers::containers_sum(start, s, com, n);
            &&& arrow(v, out.force) == arrow(v, start.force).plus(all_forces(v, s, n))
            &&& arrow(v, out.torque) == arrow(v, start.torque).plus(
                all_moments(v, s, arrow(v, com), n),
            )
        }),
    decreases n,
{
    if n > 0 {
        lemma_containers_read(v, start, s, com, (n - 1) as nat);
        let before = force_containers::containers_sum(start, s, com, (n - 1) as nat);
        lemma_entries_read(v, before, s[n - 1].entries, com, s[n - 1].entries.len());
    }
}

/// Gravity on a body: every acceleration by coordinates times the mass, times the scale.
spec fn weighed<R: Real>(
    v: spec_fn(R) -> real,
    entries: Seq<ForceEntry<R>>,
    mass: Arrow,
    scale: real,
    n: nat,
) -> Arrow
    decreases n,
{
    if n == 0 {
        Arrow::none()
    } else {
        let g = arrow(v, entries[n - 1].force);
        weighed(v, entries, mass, scale, (n - 1) as nat).plus(
            Arrow { x: g.x * mass.x, y: g.y * mass.y, z: g.z * mass.z }.times(scale),
        )
    }
}

proof fn lemma_gravity_read<R: Real>(
    v: spec_fn(R) -> real,
    start: Vector<R>,
    entries: Seq<ForceEntry<R>>,
    mass: Vector<R>,
    scale: R,
    n: nat,
)
    requires
        unrounded(v),
    ensures
        arrow(v, force_containers::gravity_sum(start, entries, mass, scale, n)) == arrow(
            v,
            start,
        ).plus(weighed(v, entries, arrow(v, mass), v(scale), n)),
    decreases n,
{
    if n > 0 {
        lemma_gravity_read(v, start, entries, mass, scale, (n - 1) as nat);
        let e = entries[n - 1];
        let before = force_containers::gravity_sum(start, entries, mass, scale, (n - 1) as nat);
        let w = e.force.component_mul(mass);
        reals::lemma_vectors(v, before, w.scale(scale), scale);
        reals::lemma_vectors(v, w, w, scale);
    }
}

proof fn lemma_body_read<R: Real>(
    v: spec_fn(R) -> real,
    rb: BodyModel<R>,
    gravity: Seq<ForceEntry<R>>,
)
    requires
        unrounded(v),
    ensures
        ({
            let out = force_containers::body_force(rb, gravity);
            &&& arrow(v, out.force) == arrow(v, rb.forces.user_force).plus(
                weighed(
                    v,
                    gravity,
                    arrow(v, rb.mprops.effective_mass),
                    v(rb.forces.gravity_scale),
                    gravity.len(),
                ),
            ).plus(all_forces(v, rb.containers, rb.containers.len()))
            &&& arrow(v, out.torque) == arrow(v, rb.forces.user_torque).plus(
                all_moments(v, rb.containers, arrow(v, rb.mprops.world_com), rb.containers.len()),
            )
        }),
{
    let user = Vector::zero().add(rb.forces.user_force);
    reals::lemma_vectors(v, Vector::zero(), rb.forces.user_force, R::zero());
    reals::lemma_vectors(v, Vector::zero(), rb.forces.user_torque, R::zero());
    lemma_gravity_read(
        v,
        user,
        gravity,
        rb.mprops.effective_mass,
        rb.forces.gravity_scale,
        gravity.len(),
    );
    let start = EffectiveForce {
        force: force_containers::gravity_sum(
            user,
            gravity,
            rb.mprops.effective_mass,
            rb.forces.gravity_scale,
            gravity.len(),
        ),
        torque: Vector::zero().add(rb.forces.user_torque),
    };
    lemma_containers_read(v, start, rb.containers, rb.mprops.world_com, rb.containers.len());
}

proof fn lemma_entries_prefix<R: Real>(
    v: spec_fn(R) -> real,
    a: Seq<ForceEntry<R>>,
    b: Seq<ForceEntry<R>>,
    about: Arrow,
    n: nat,
)
    requires
        n <= a.len(),
        n <= b.len(),
        forall|i: int| 0 <= i < n ==> a[i] == b[i],
    ensures
        forces_of(v, a, n) == forces_of(v, b, n),
        moments_of(v, a, about, n) == moments_of(v, b, about, n),
    decreases n,
{
    if n > 0 {
        lemma_entries_prefix(v, a, b, about, (n - 1) as nat);
    }
}

/// One container with one more force.
proof fn lemma_pushed<R: Real>(
    v: spec_fn(R) -> real,
    c: ContainerState<R>,
    e: ForceEntry<R>,
    about: Arrow,
)
    ensures
        ({
            let d = c.pushed(e);
            &&& forces_of(v, d.entries, d.entries.len()) == forces_of(
                v,
                c.entries,
                c.entries.len(),
            ).plus(arrow(v, e.force))
            &&& moments_of(v, d.entries, about, d.entries.len()) == moments_of(
                v,
                c.entries,
                about,
                c.entries.len(),
            ).plus(moment(v, e, about))
        }),
{
    let d = c.pushed(e);
    lemma_entries_prefix(v, c.entries, d.entries, about, c.entries.len());
}

proof fn lemma_changed_container<R: Real>(
    v: spec_fn(R) -> real,
    s: Seq<ContainerState<R>>,
    t: Seq<ContainerState<R>>,
    k: int,
    e: ForceEntry<R>,
    about: Arrow,
    n: nat,
)
    requires
        n <= s.len(),
        s.len() == t.len(),
        0 <= k < s.len(),
        t == s.update(k, s[k].pushed(e)),
        !s[k].kind.is_observation(),
    ensures
        all_forces(v, t, n) == (if k < n {
            all_forces(v, s, n).plus(arrow(v, e.force))
        } else {
            all_forces(v, s, n)
        }),
        all_moments(v, t, about, n) == (if k < n {
            all_moments(v, s, about, n).plus(moment(v, e, about))
        } else {
            all_moments(v, s, about, n)
        }),
    decreases n,
{
    if n > 0 {
        lemma_changed_container(v, s, t, k, e, about, (n - 1) as nat);
        if k == n - 1 {
            lemma_pushed(v, s[k], e, about);
        }
    }
}

proof fn lemma_same_containers<R: Real>(
    v: spec_fn(R) -> real,
    s: Seq<ContainerState<R>>,
    t: Seq<ContainerState<R>>,
    about: Arrow,
    n: nat,
)
    requires
        n <= s.len(),
        n <= t.len(),
        forall|i: int| 0 <= i < n ==> s[i] == t[i],
    ensures
        all_forces(v, s, n) == all_forces(v, t, n),
        all_moments(v, s, about, n) == all_moments(v, t, about, n),
    decreases n,
{
    if n > 0 {
        lemma_same_containers(v, s, t, about, (n - 1) as nat);
    }
}

proof fn lemma_entry_added<R: Real>(
    v: spec_fn(R) -> real,
    s: Seq<ContainerState<R>>,
    kind: ForceKind,
    persistence: Persistence,
    e: ForceEntry<R>,
    about: Arrow,
)
    requires
        !kind.is_observation(),
    ensures
        ({
            let t = force_containers::with_entry(s, kind, persistence, e);
            &&& all_forces(v, t, t.len()) == all_forces(v, s, s.len()).plus(arrow(v, e.force))
            &&& all_moments(v, t, about, t.len()) == all_moments(v, s, about, s.len()).plus(
                moment(v, e, about),
            )
        }),
{
    let t = force_containers::with_entry(s, kind, persistence, e);
    if force_containers::has_kind(s, kind) {
        force_containers::lemma_slot_of_present(s, kind);
        let k = force_containers::slot_of(s, kind);
        lemma_changed_container(v, s, t, k, e, about, s.len());
    } else {
        let fresh = ContainerState { kind, persistence, entries: Seq::<ForceEntry<R>>::empty() };
        lemma_same_containers(v, s, t, about, s.len());
        lemma_pushed(v, fresh, e, about);
        assert(t.last() == fresh.pushed(e));
    }
}

/// One more force on a body adds itself to the summed force, and its moment about the centre of
/// mass of the body in the world to the summed torque. A force without torque of its own that acts
/// at that centre does not turn the body, wherever the body is.
pub proof fn lemma_force_adds_its_moment<R: Real>(
    v: spec_fn(R) -> real,
    rb: BodyModel<R>,
    gravity: Seq<ForceEntry<R>>,
    kind: ForceKind,
    persistence: Persistence,
    e: ForceEntry<R>,
)
    requires
        unrounded(v),
        !kind.is_observation(),
    ensures
        ({
            let more = BodyModel {
                containers: force_containers::with_entry(rb.containers, kind, persistence, e),
                ..rb
            };
            let before = force_containers::body_force(rb, gravity);
            let after = force_containers::body_force(more, gravity);
            let com = arrow(v, rb.mprops.world_com);
            &&& arrow(v, after.force) == arrow(v, before.force).plus(arrow(v, e.force))
            &&& arrow(v, after.torque) == arrow(v, before.torque).plus(moment(v, e, com))
            &&& (e.point matches Some(p) && arrow(v, p) == com && arrow(v, e.torque)
                == Arrow::none()) ==> arrow(v, after.torque) == arrow(v, before.torque)
        }),
{
    let more = BodyModel {
        containers: force_containers::with_entry(rb.containers, kind, persistence, e),
        ..rb
    };
    let com = arrow(v, rb.mprops.world_com);
    lemma_body_read(v, rb, gravity);
    lemma_body_read(v, more, gravity);
    lemma_entry_added(v, rb.containers, kind, persistence, e, com);
    if let Some(p) = e.point {
        if arrow(v, p) == com && arrow(v, e.torque) == Arrow::none() {
            let f = arrow(v, e.force);
            reals::lemma_trivial_factors(f.x);
            reals::lemma_trivial_factors(f.y);
            reals::lemma_trivial_factors(f.z);
            assert(com.minus(com) == Arrow::none());
            assert(Arrow::none().across(f) == Arrow::none());
            assert(moment(v, e, com) == Arrow::none());
        }
    }
}

/// A force at another place.
pub open spec fn carried<R: Real>(e: ForceEntry<R>, by: Vector<R>) -> ForceEntry<R> {
    ForceEntry {
        point: match e.point {
            Some(p) => Some(p.add(by)),
            None => None,
        },
        ..e
    }
}

/// Containers whose forces act at other places.
pub open spec fn all_carried<R: Real>(
    s: Seq<ContainerState<R>>,
    by: Vector<R>,
) -> Seq<ContainerState<R>> {
    Seq::new(
        s.len(),
        |i: int|
            ContainerState {
                entries: Seq::new(s[i].entries.len(), |k: int| carried(s[i].entries[k], by)),
                ..s[i]
            },
    )
}

proof fn lemma_entries_carried<R: Real>(
    v: spec_fn(R) -> real,
    a: Seq<ForceEntry<R>>,
    b: Seq<ForceEntry<R>>,
    com: Vector<R>,
    by: Vector<R>,
    n: nat,
)
    requires
        unrounded(v),
        n <= a.len(),
        n <= b.len(),
        forall|i: int| 0 <= i < n ==> #[trigger] b[i] == carried(a[i], by),
    ensures
        forces_of(v, a, n) == forces_of(v, b, n),
        moments_of(v, a, arrow(v, com), n) == moments_of(v, b, arrow(v, com.add(by)), n),
    decreases n,
{
    if n > 0 {
        lemma_entries_carried(v, a, b, com, by, (n - 1) as nat);
        assert(b[n - 1] == carried(a[n - 1], by));
        reals::lemma_vectors(v, com, by, R::zero());
        if let Some(p) = a[n - 1].point {
            reals::lemma_vectors(v, p, by, R::zero());
            assert(arrow(v, p.add(by)).minus(arrow(v, com.add(by))) == arrow(v, p).minus(
                arrow(v, com),
            ));
        }
    }
}

proof fn lemma_all_carried<R: Real>(
    v: spec_fn(R) -> real,
    s: Seq<ContainerState<R>>,
    com: Vector<R>,
    by: Vector<R>,
    n: nat,
)
    requires
        unrounded(v),
        n <= s.len(),
    ensures
        all_forces(v, s, n) == all_forces(v, all_carried(s, by), n),
        all_moments(v, s, arrow(v, com), n) == all_moments(
            v,
            all_carried(s, by),
            arrow(v, com.add(by)),
            n,
        ),
    decreases n,
{
    if n > 0 {
        lemma_all_carried(v, s, com, by, (n - 1) as nat);
        lemma_entries_carried(
            v,
            s[n - 1].entries,
            all_carried(s, by)[n - 1].entries,
            com,
            by,
            s[n - 1].entries.len(),
        );
    }
}

/// It does not matter where in the world a body is: moved with its centre of mass and all the
/// places at which forces act on it, it gets the same force and torque.
pub proof fn lemma_place_does_not_matter<R: Real>(
    v: spec_fn(R) -> real,
    rb: BodyModel<R>,
    gravity: Seq<ForceEntry<R>>,
    by: Vector<R>,
)
    requires
        unrounded(v),
    ensures
        ({
            let there = BodyModel {
                containers: all_carried(rb.containers, by),
                mprops: RigidBodyMassProps {
                    world_com: rb.mprops.world_com.add(by),
                    ..rb.mprops
                },
                ..rb
            };
            let a = force_containers::body_force(rb, gravity);
            let b = force_containers::body_force(there, gravity);
            &&& arrow(v, a.force) == arrow(v, b.force)
            &&& arrow(v, a.torque) == arrow(v, b.torque)
        }),
{
    let there = BodyModel {
        containers: all_carried(rb.containers, by),
        mprops: RigidBodyMassProps { world_com: rb.mprops.world_com.add(by), ..rb.mprops },
        ..rb
    };
    lemma_body_read(v, rb, gravity);
    lemma_body_read(v, there, gravity);
    lemma_all_carried(v, rb.containers, rb.mprops.world_com, by, rb.containers.len());
}

/// Gravity accelerates: one more entry adds, along every axis, its acceleration times the mass of
/// the body along that axis and the scale that the body has for gravity, and no torque. The user's
/// force and torque count as they are, and nothing adds up to nothing.
pub proof fn lemma_gravity_accelerates<R: Real>(
    v: spec_fn(R) -> real,
    rb: BodyModel<R>,
    gravity: Seq<ForceEntry<R>>,
    e: ForceEntry<R>,
)
    requires
        unrounded(v),
    ensures
        ({
            let before = force_containers::body_force(rb, gravity);
            let after = force_containers::body_force(rb, gravity.push(e));
            let gained = arrow(v, after.force).minus(arrow(v, before.force));
            let g = arrow(v, e.force);
            let m = arrow(v, rb.mprops.effective_mass);
            let s = v(rb.forces.gravity_scale);
            &&& gained == (Arrow { x: g.x * m.x * s, y: g.y * m.y * s, z: g.z * m.z * s })
            &&& arrow(v, after.torque) == arrow(v, before.torque)
        }),
        ({
            let bare = BodyModel { containers: Seq::<ContainerState<R>>::empty(), ..rb };
            let alone = force_containers::body_force(bare, Seq::<ForceEntry<R>>::empty());
            &&& arrow(v, alone.force) == arrow(v, rb.forces.user_force)
            &&& arrow(v, alone.torque) == arrow(v, rb.forces.user_torque)
        }),
{
    lemma_body_read(v, rb, gravity);
    lemma_body_read(v, rb, gravity.push(e));
    let mass = arrow(v, rb.mprops.effective_mass);
    let scale = v(rb.forces.gravity_scale);
    lemma_weighed_prefix(v, gravity, gravity.push(e), mass, scale, gravity.len());
    let bare = BodyModel { containers: Seq::<ContainerState<R>>::empty(), ..rb };
    lemma_body_read(v, bare, Seq::<ForceEntry<R>>::empty());
}

proof fn lemma_weighed_prefix<R: Real>(
    v: spec_fn(R) -> real,
    a: Seq<ForceEntry<R>>,
    b: Seq<ForceEntry<R>>,
    mass: Arrow,
    scale: real,
    n: nat,
)
    requires
        n <= a.len(),
        n <= b.len(),
        forall|i: int| 0 <= i < n ==> a[i] == b[i],
    ensures
        weighed(v, a, mass, scale, n) == weighed(v, b, mass, scale, n),
    decreases n,
{
    if n > 0 {
        lemma_weighed_prefix(v, a, b, mass, scale, (n - 1) as nat);
    }
}

/// One more solved contact: over the time step, the reaction on the first body is the impulse
/// against the normal and the friction that against the tangents. Both act at the lever arm of the
/// contact, and the second body gets the opposite.
pub proof fn lemma_contact_gives_its_impulse<R: Real>(
    v: spec_fn(R) -> real,
    before: PairForce<R>,
    normal: Vector<R>,
    tangents: [Vector<R>; 2],
    c: SolverContact<R>,
    inv_dt: R,
    dt: real,
)
    requires
        unrounded(v),
        v(inv_dt) * dt == 1real,
    ensures
        ({
            let after = before.plus(normal, tangents, c, inv_dt);
            let f = arrow(v, after.reaction).minus(arrow(v, before.reaction));
            let t = arrow(v, after.friction).minus(arrow(v, before.friction));
            let arm = arrow(v, c.dp1);
            let other = after.opposite();
            &&& f.times(dt).plus(arrow(v, normal).times(v(c.impulse))) == Arrow::none()
            &&& t.times(dt).plus(
                arrow(v, tangents[0]).times(v(c.tangent_impulse[0])).plus(
                    arrow(v, tangents[1]).times(v(c.tangent_impulse[1])),
                ),
            ) == Arrow::none()
            &&& arrow(v, after.reaction_torque).minus(arrow(v, before.reaction_torque))
                == arm.across(f)
            &&& arrow(v, after.friction_torque).minus(arrow(v, before.friction_torque))
                == arm.across(t)
            &&& arrow(v, other.reaction).plus(arrow(v, after.reaction)) == Arrow::none()
            &&& arrow(v, other.friction).plus(arrow(v, after.friction)) == Arrow::none()
            &&& arrow(v, other.reaction_torque).plus(arrow(v, after.reaction_torque))
                == Arrow::none()
            &&& arrow(v, other.friction_torque).plus(arrow(v, after.friction_torque))
                == Arrow::none()
        }),
{
    let rate = c.impulse.mul(inv_dt);
    let reaction = normal.neg().scale(rate);
    let t0 = tangents[0].scale(c.tangent_impulse[0]);
    let t1 = tangents[1].scale(c.tangent_impulse[1]);
    let both = t0.add(t1);
    let friction = both.neg().scale(inv_dt);
    let after = before.plus(normal, tangents, c, inv_dt);
    reals::lemma_vectors(v, normal, normal, rate);
    reals::lemma_vectors(v, normal.neg(), normal, rate);
    reals::lemma_vectors(v, tangents[0], tangents[0], c.tangent_impulse[0]);
    reals::lemma_vectors(v, tangents[1], tangents[1], c.tangent_impulse[1]);
    reals::lemma_vectors(v, t0, t1, inv_dt);
    reals::lemma_vectors(v, both, both, inv_dt);
    reals::lemma_vectors(v, both.neg(), both, inv_dt);
    reals::lemma_vectors(v, before.reaction, reaction, inv_dt);
    reals::lemma_vectors(v, before.friction, friction, inv_dt);
    reals::lemma_vectors(v, c.dp1, reaction, inv_dt);
    reals::lemma_vectors(v, c.dp1, friction, inv_dt);
    reals::lemma_vectors(v, before.reaction_torque, c.dp1.cross(reaction), inv_dt);
    reals::lemma_vectors(v, before.friction_torque, c.dp1.cross(friction), inv_dt);
    let n = arrow(v, normal);
    let i = v(c.impulse);
    let r = v(inv_dt);
    lemma_over_step(n.x, i, r, dt);
    lemma_over_step(n.y, i, r, dt);
    lemma_over_step(n.z, i, r, dt);
    let b = arrow(v, both);
    lemma_over_step(b.x, 1real, r, dt);
    lemma_over_step(b.y, 1real, r, dt);
    lemma_over_step(b.z, 1real, r, dt);
    let f = arrow(v, after.reaction).minus(arrow(v, before.reaction));
    let t = arrow(v, after.friction).minus(arrow(v, before.friction));
    assert(f == n.times(-1real).times(i * r));
    assert(f == arrow(v, reaction));
    reals::lemma_trivial_factors(r);
    assert(t == b.times(-1real).times(r));
    assert(t == arrow(v, friction));
    reals::lemma_trivial_factors(b.x);
    reals::lemma_trivial_factors(b.y);
    reals::lemma_trivial_factors(b.z);
}

/// One coordinate of a force over a step.
proof fn lemma_over_step(n: real, i: real, r: real, dt: real)
    requires
        r * dt == 1real,
    ensures
        ((n * (-1real)) * (i * r)) * dt + n * i == 0real,
{
    reals::lemma_trivial_factors(n);
    reals::lemma_factors(-n, i * r, dt);
    reals::lemma_factors(i, r, dt);
    reals::lemma_trivial_factors(i);
    reals::lemma_negative(n, i);
}

/// The sum of the forces of one kind.
pub open spec fn reported<R: Real>(
    v: spec_fn(R) -> real,
    s: Seq<ContainerState<R>>,
    kind: ForceKind,
) -> Arrow {
    if force_containers::has_kind(s, kind) {
        sum_of_forces(v, s[force_containers::slot_of(s, kind)].entries)
    } else {
        Arrow::none()
    }
}

/// The sum of forces.
pub open spec fn sum_of_forces<R: Real>(
    v: spec_fn(R) -> real,
    entries: Seq<ForceEntry<R>>,
) -> Arrow
    decreases entries.len(),
{
    if entries.len() == 0 {
        Arrow::none()
    } else {
        sum_of_forces(v, entries.drop_last()).plus(arrow(v, entries.last().force))
    }
}

/// A container that is there keeps its position when forces are added to it.
proof fn lemma_same_slot<R>(
    s: Seq<ContainerState<R>>,
    t: Seq<ContainerState<R>>,
    kind: ForceKind,
)
    requires
        t.len() >= s.len(),
        forall|i: int| 0 <= i < s.len() ==> (#[trigger] t[i]).kind == s[i].kind,
        force_containers::has_kind(s, kind),
    ensures
        force_containers::has_kind(t, kind),
        force_containers::slot_of(t, kind) == force_containers::slot_of(s, kind),
{
    force_containers::lemma_slot_of_present(s, kind);
    let at = force_containers::slot_of(s, kind);
    assert(t[at].kind == kind);
    lemma_none_before(s, kind);
    assert forall|i: int| 0 <= i < at implies (#[trigger] t[i]).kind != kind by {
        assert(s[i].kind != kind);
    }
    force_containers::lemma_slot(t, kind, at);
}

/// No container before the first of a kind is of that kind.
proof fn lemma_none_before<R>(s: Seq<ContainerState<R>>, kind: ForceKind)
    ensures
        forall|i: int|
            0 <= i < force_containers::slot_of(s, kind) && i < s.len() ==> (#[trigger] s[i]).kind
                != kind,
    decreases s.len(),
{
    if s.len() > 0 && s[0].kind != kind {
        let rest = s.drop_first();
        lemma_none_before(rest, kind);
        let at = force_containers::slot_of(s, kind);
        assert forall|i: int| 0 <= i < at && i < s.len() implies (#[trigger] s[i]).kind
            != kind by {
            if i > 0 {
                assert(rest[i - 1] == s[i]);
            }
        }
    }
}

/// A report adds its force to what is reported of its kind, and nothing to other kinds.
pub proof fn lemma_force_is_reported<R: Real>(
    v: spec_fn(R) -> real,
    s: Seq<ContainerState<R>>,
    kind: ForceKind,
    force: Vector<R>,
    torque: AngVector<R>,
    other: ForceKind,
)
    requires
        unrounded(v),
        other != kind,
    ensures
        ({
            let t = force_containers::with_report(s, kind, force, torque);
            &&& force_containers::has_kind(t, kind)
            &&& reported(v, t, kind) == reported(v, s, kind).plus(arrow(v, force))
            &&& reported(v, t, other) == reported(v, s, other)
        }),
{
    let open = force_containers::opened(s, kind);
    let t = force_containers::with_report(s, kind, force, torque);
    if !force_containers::has_kind(s, kind) {
        assert(open[s.len() as int].kind == kind);
        assert forall|i: int| 0 <= i < s.len() implies (#[trigger] open[i]).kind != kind by {
            assert(s[i].kind != kind);
        }
        force_containers::lemma_slot(open, kind, s.len() as int);
        assert(sum_of_forces(v, open[s.len() as int].entries) == Arrow::none());
    }
    assert(force_containers::has_kind(open, kind));
    force_containers::lemma_slot_of_present(open, kind);
    let at = force_containers::slot_of(open, kind);
    assert(reported(v, open, kind) == reported(v, s, kind));
    lemma_other_kind(v, s, open, other);
    reals::lemma_vectors(v, force, force, R::one());
    reals::lemma_square(arrow(v, force));
    if R::zero().lt(force.length_squared()) {
        assert(t =~= open.update(at, t[at]));
        lemma_same_slot(open, t, kind);
        assert(t[at].entries.drop_last() =~= open[at].entries);
        assert(t[at].entries.last().force == force);
        assert(reported(v, t, kind) == reported(v, open, kind).plus(arrow(v, force)));
        lemma_other_kind(v, open, t, other);
    } else {
        assert(arrow(v, force) == Arrow::none());
    }
}

/// What is reported of a kind does not change with containers of other kinds.
proof fn lemma_other_kind<R: Real>(
    v: spec_fn(R) -> real,
    s: Seq<ContainerState<R>>,
    t: Seq<ContainerState<R>>,
    other: ForceKind,
)
    requires
        t.len() >= s.len(),
        forall|i: int| 0 <= i < s.len() ==> (#[trigger] t[i]).kind == s[i].kind,
        forall|i: int| 0 <= i < s.len() && s[i].kind == other ==> #[trigger] t[i] == s[i],
        forall|i: int| s.len() <= i < t.len() ==> (#[trigger] t[i]).kind != other,
    ensures
        reported(v, t, other) == reported(v, s, other),
{
    if force_containers::has_kind(s, other) {
        lemma_same_slot(s, t, other);
        force_containers::lemma_slot_of_present(s, other);
        let at = force_containers::slot_of(s, other);
        assert(t[at] == s[at]);
    } else if force_containers::has_kind(t, other) {
        let i = choose|i: int| 0 <= i < t.len() && (#[trigger] t[i]).kind == other;
        if i < s.len() {
            assert(s[i].kind == other);
        }
    }
}

/// Contacts act on their two bodies with opposite forces: what a pair adds to the reaction and the
/// friction reported to its first body is the opposite of what it adds to those of its second.
pub proof fn lemma_contact_acts_and_reacts<R: Real>(
    v: spec_fn(R) -> real,
    slots: Seq<SlotModel<R>>,
    pair: ContactPair<R>,
    inv_dt: R,
    h1: RigidBodyHandle,
    h2: RigidBodyHandle,
)
    requires
        unrounded(v),
        h1.index != h2.index,
        rigid_body::body_at(slots, h1) is Some,
        rigid_body::body_at(slots, h2) is Some,
        force_containers::manifolds_bodies(pair.manifolds@, pair.manifolds@.len()) == (
            Some(h1),
            Some(h2),
        ),
    ensures
        ({
            let after = force_containers::pair_reported(slots, pair, inv_dt);
            let (a, b) = (
                rigid_body::body_at(slots, h1)->0.containers,
                rigid_body::body_at(slots, h2)->0.containers,
            );
            let f = force_containers::manifolds_force(
                pair.manifolds@,
                inv_dt,
                pair.manifolds@.len(),
            );
            let (c, d) = (
                rigid_body::body_at(after, h1)->0.containers,
                rigid_body::body_at(after, h2)->0.containers,
            );
            let (reaction, friction) = (ForceKind::ContactReaction, ForceKind::Friction);
            &&& rigid_body::body_at(after, h1) is Some && rigid_body::body_at(after, h2) is Some
            &&& reported(v, c, reaction) == reported(v, a, reaction).plus(arrow(v, f.reaction))
            &&& reported(v, d, reaction) == reported(v, b, reaction).minus(arrow(v, f.reaction))
            &&& reported(v, c, friction) == reported(v, a, friction).plus(arrow(v, f.friction))
            &&& reported(v, d, friction) == reported(v, b, friction).minus(arrow(v, f.friction))
        }),
{
    let f = force_containers::manifolds_force(pair.manifolds@, inv_dt, pair.manifolds@.len());
    let o = f.opposite();
    let (a, b) = (
        rigid_body::body_at(slots, h1)->0.containers,
        rigid_body::body_at(slots, h2)->0.containers,
    );
    lemma_both_reported(v, a, f);
    lemma_both_reported(v, b, o);
    reals::lemma_vectors(v, f.reaction, f.reaction, inv_dt);
    reals::lemma_vectors(v, f.friction, f.friction, inv_dt);
    let (x, y) = (arrow(v, f.reaction), arrow(v, f.friction));
    reals::lemma_trivial_factors(x.x);
    reals::lemma_trivial_factors(x.y);
    reals::lemma_trivial_factors(x.z);
    reals::lemma_trivial_factors(y.x);
    reals::lemma_trivial_factors(y.y);
    reals::lemma_trivial_factors(y.z);
    let first = force_containers::body_reported(slots, h1, f);
    assert(rigid_body::body_at(first, h1)->0.containers == force_containers::contact_reported(
        a,
        f,
    ));
    assert(rigid_body::body_at(first, h2) == rigid_body::body_at(slots, h2));
    let second = force_containers::body_reported(first, h2, o);
    assert(rigid_body::body_at(second, h2)->0.containers == force_containers::contact_reported(
        b,
        o,
    ));
    assert(rigid_body::body_at(second, h1) == rigid_body::body_at(first, h1));
}

/// Both parts of a contact force are reported.
proof fn lemma_both_reported<R: Real>(
    v: spec_fn(R) -> real,
    s: Seq<ContainerState<R>>,
    f: PairForce<R>,
)
    requires
        unrounded(v),
    ensures
        ({
            let t = force_containers::contact_reported(s, f);
            let (reaction, friction) = (ForceKind::ContactReaction, ForceKind::Friction);
            &&& reported(v, t, reaction) == reported(v, s, reaction).plus(arrow(v, f.reaction))
            &&& reported(v, t, friction) == reported(v, s, friction).plus(arrow(v, f.friction))
        }),
{
    let (reaction, friction) = (ForceKind::ContactReaction, ForceKind::Friction);
    lemma_force_is_reported(v, s, reaction, f.reaction, f.reaction_torque, friction);
    let t = force_containers::with_report(s, reaction, f.reaction, f.reaction_torque);
    lemma_force_is_reported(v, t, friction, f.friction, f.friction_torque, reaction);
}

/// A force that lasts stays when a frame ends: it makes no difference whether it is added before or
/// after.
pub proof fn lemma_lasting_forces_stay<R: Real>(
    s: Seq<ContainerState<R>>,
    kind: ForceKind,
    e: ForceEntry<R>,
)
    requires
        force_containers::has_kind(s, kind) ==> s[force_containers::slot_of(s, kind)].persistence
            == Persistence::Persistent,
    ensures
        force_containers::frame_ended(
            force_containers::with_entry(s, kind, Persistence::Persistent, e),
        ) == force_containers::with_entry(
            force_containers::frame_ended(s),
            kind,
            Persistence::Persistent,
            e,
        ),
{
    let t = force_containers::frame_ended(s);
    assert forall|i: int| 0 <= i < s.len() implies (#[trigger] t[i]).kind == s[i].kind by {}
    if force_containers::has_kind(s, kind) {
        lemma_same_slot(s, t, kind);
        force_containers::lemma_slot_of_present(s, kind);
    } else {
        assert(!force_containers::has_kind(t, kind)) by {
            if force_containers::has_kind(t, kind) {
                let i = choose|i: int| 0 <= i < t.len() && (#[trigger] t[i]).kind == kind;
                assert(s[i].kind == kind);
            }
        }
    }
    assert(force_containers::frame_ended(
        force_containers::with_entry(s, kind, Persistence::Persistent, e),
    ) =~= force_containers::with_entry(t, kind, Persistence::Persistent, e));
}

/// A force for one frame is gone when the frame ends: the body is then acted on as if it had never
/// been added.
pub proof fn lemma_passing_forces_go<R: Real>(
    rb: BodyModel<R>,
    gravity: Seq<ForceEntry<R>>,
    kind: ForceKind,
    e: ForceEntry<R>,
)
    requires
        force_containers::has_kind(rb.containers, kind) ==> rb.containers[force_containers::slot_of(
            rb.containers,
            kind,
        )].persistence == Persistence::Transient,
    ensures
        force_containers::body_force(
            BodyModel {
                containers: force_containers::frame_ended(
                    force_containers::with_entry(
                        rb.containers,
                        kind,
                        Persistence::Transient,
                        e,
                    ),
                ),
                ..rb
            },
            gravity,
        ) == force_containers::body_force(
            BodyModel { containers: force_containers::frame_ended(rb.containers), ..rb },
            gravity,
        ),
{
    let s = rb.containers;
    let more = force_containers::with_entry(s, kind, Persistence::Transient, e);
    let (a, b) = (force_containers::frame_ended(more), force_containers::frame_ended(s));
    if force_containers::has_kind(s, kind) {
        force_containers::lemma_slot_of_present(s, kind);
        assert(a =~= b);
    } else {
        assert(a.len() == b.len() + 1);
        assert(a[b.len() as int].entries.len() == 0);
        assert forall|i: int| 0 <= i < b.len() implies #[trigger] a[i] == b[i] by {}
        lemma_empty_container_adds_nothing(rb, gravity, a, b);
    }
}

/// An empty container after others adds nothing.
proof fn lemma_empty_container_adds_nothing<R: Real>(
    rb: BodyModel<R>,
    gravity: Seq<ForceEntry<R>>,
    a: Seq<ContainerState<R>>,
    b: Seq<ContainerState<R>>,
)
    requires
        a.len() == b.len() + 1,
        a[b.len() as int].entries.len() == 0,
        forall|i: int| 0 <= i < b.len() ==> #[trigger] a[i] == b[i],
    ensures
        force_containers::body_force(BodyModel { containers: a, ..rb }, gravity)
            == force_containers::body_force(BodyModel { containers: b, ..rb }, gravity),
{
    let start = force_containers::body_force(
        BodyModel { containers: Seq::<ContainerState<R>>::empty(), ..rb },
        gravity,
    );
    lemma_same_sum(start, a, b, rb.mprops.world_com, b.len());
}

proof fn lemma_same_sum<R: Real>(
    start: EffectiveForce<R>,
    a: Seq<ContainerState<R>>,
    b: Seq<ContainerState<R>>,
    com: Vector<R>,
    n: nat,
)
    requires
        n <= a.len(),
        n <= b.len(),
        forall|i: int| 0 <= i < n ==> #[trigger] a[i] == b[i],
    ensures
        force_containers::containers_sum(start, a, com, n) == force_containers::containers_sum(
            start,
            b,
            com,
            n,
        ),
    decreases n,
{
    if n > 0 {
        assert(a[n - 1] == b[n - 1]);
        lemma_same_sum(start, a, b, com, (n - 1) as nat);
    }
}

} // verus!
