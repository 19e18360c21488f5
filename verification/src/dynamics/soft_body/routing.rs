//! What the rigid bodies get from the soft bodies that are anchored to them.
use vstd::prelude::*;
use crate::dynamics::force_containers;
use crate::dynamics::force_containers::{ContainerState, ForceEntry, ForceKind, Persistence};
use crate::dynamics::rigid_body;
use crate::dynamics::rigid_body::{BodyModel, RigidBodyHandle, SlotModel};
use crate::dynamics::soft_body::bodies;
use crate::dynamics::soft_body::model::{SoftParticle, SoftState, SOFT_SPRING_CUSTOM_ID};
use crate::math::Vector;
use crate::scalar::Real;

verus! {

/// The kind under which spring forces are kept.
pub open spec fn spring_kind() -> ForceKind {
    ForceKind::Custom(SOFT_SPRING_CUSTOM_ID)
}

/// The entries for those of the first `n` particles that are anchored to `h`, in their order.
pub open spec fn entries_of<R: Real>(
    ps: Seq<SoftParticle<R>>,
    forces: Seq<Vector<R>>,
    h: RigidBodyHandle,
    n: nat,
) -> Seq<ForceEntry<R>>
    decreases n,
{
    if n == 0 {
        Seq::empty()
    } else {
        let before = entries_of(ps, forces, h, (n - 1) as nat);
        if ps[n - 1].bound_body == Some(h) {
            before.push(
                ForceEntry {
                    id: n as u64,
                    force: forces[n - 1],
                    torque: Vector::zero(),
                    point: Some(ps[n - 1].pos),
                },
            )
        } else {
            before
        }
    }
}

/// The entries for the particles of the first `n` soft bodies that are awake and anchored to `h`.
pub open spec fn all_entries_of<R: Real>(
    s: Seq<Option<SoftState<R>>>,
    h: RigidBodyHandle,
    n: nat,
) -> Seq<ForceEntry<R>>
    decreases n,
{
    if n == 0 {
        Seq::empty()
    } else {
        let before = all_entries_of(s, h, (n - 1) as nat);
        match s[n - 1] {
            Some(b) => if b.sleeping {
                before
            } else {
                before + entries_of(b.particles, b.spring_forces(), h, b.particles.len())
            },
            None => before,
        }
    }
}

/// Containers with the spring forces `es` in them, if there are any.
pub open spec fn holding<R: Real>(
    c: Seq<ContainerState<R>>,
    es: Seq<ForceEntry<R>>,
) -> Seq<ContainerState<R>> {
    if es.len() == 0 {
        c
    } else {
        c.push(
            ContainerState {
                kind: spring_kind(),
                persistence: Persistence::Persistent,
                entries: es,
            },
        )
    }
}

proof fn lemma_without_kind<R>(c: Seq<ContainerState<R>>, kind: ForceKind)
    requires
        force_containers::kinds_distinct(c),
    ensures
        !force_containers::has_kind(force_containers::without_kind(c, kind), kind),
        force_containers::kinds_distinct(force_containers::without_kind(c, kind)),
{
    let d = force_containers::without_kind(c, kind);
    if force_containers::has_kind(c, kind) {
        let at = choose|i: int| 0 <= i < c.len() && (#[trigger] c[i]).kind == kind;
        force_containers::lemma_slot_of_only(c, kind, at);
        assert forall|i: int| 0 <= i < d.len() implies (#[trigger] d[i]).kind != kind by {
            let k = if i < at {
                i
            } else {
                i + 1
            };
            assert(d[i] == c[k]);
        }
        assert forall|i: int, j: int| 0 <= i < j < d.len() implies (#[trigger] d[i]).kind != (
        #[trigger] d[j]).kind by {
            let k = if i < at {
                i
            } else {
                i + 1
            };
            let m = if j < at {
                j
            } else {
                j + 1
            };
            assert(d[i] == c[k] && d[j] == c[m]);
        }
    }
}

proof fn lemma_released_at<R: Real>(
    slots: Seq<SlotModel<R>>,
    ps: Seq<SoftParticle<R>>,
    forces: Seq<Vector<R>>,
    h: RigidBodyHandle,
    n: nat,
    rb: BodyModel<R>,
)
    requires
        rigid_body::body_at(slots, h) == Some(rb),
        force_containers::kinds_distinct(rb.containers),
    ensures
        rigid_body::body_at(bodies::released(slots, ps, n), h) == Some(
            if entries_of(ps, forces, h, n).len() == 0 {
                rb
            } else {
                BodyModel {
                    containers: force_containers::without_kind(rb.containers, spring_kind()),
                    ..rb
                }
            },
        ),
    decreases n,
{
    if n > 0 {
        lemma_released_at(slots, ps, forces, h, (n - 1) as nat, rb);
        lemma_without_kind(rb.containers, spring_kind());
    }
}

proof fn lemma_all_released_at<R: Real>(
    slots: Seq<SlotModel<R>>,
    s: Seq<Option<SoftState<R>>>,
    h: RigidBodyHandle,
    n: nat,
    rb: BodyModel<R>,
)
    requires
        rigid_body::body_at(slots, h) == Some(rb),
        force_containers::kinds_distinct(rb.containers),
    ensures
        rigid_body::body_at(bodies::all_released(slots, s, n), h) == Some(
            if all_entries_of(s, h, n).len() == 0 {
                rb
            } else {
                BodyModel {
                    containers: force_containers::without_kind(rb.containers, spring_kind()),
                    ..rb
                }
            },
        ),
    decreases n,
{
    if n > 0 {
        lemma_all_released_at(slots, s, h, (n - 1) as nat, rb);
        lemma_without_kind(rb.containers, spring_kind());
        let before = bodies::all_released(slots, s, (n - 1) as nat);
        if let Some(b) = s[n - 1] {
            if !b.sleeping {
                let now = rigid_body::body_at(before, h)->0;
                lemma_released_at(
                    before,
                    b.particles,
                    b.spring_forces(),
                    h,
                    b.particles.len(),
                    now,
                );
            }
        }
    }
}

proof fn lemma_entry_added<R: Real>(
    c: Seq<ContainerState<R>>,
    es: Seq<ForceEntry<R>>,
    e: ForceEntry<R>,
)
    requires
        !force_containers::has_kind(c, spring_kind()),
        e.id != 0,
    ensures
        force_containers::with_entry(
            holding(c, es),
            spring_kind(),
            Persistence::Persistent,
            e,
        ) == holding(c, es.push(e)),
{
    let d = holding(c, es);
    if es.len() == 0 {
        assert(es =~= Seq::empty());
    } else {
        let at = c.len() as int;
        assert(d[at].kind == spring_kind());
        assert forall|i: int| 0 <= i < at implies (#[trigger] d[i]).kind != spring_kind() by {
            assert(d[i] == c[i]);
        }
        force_containers::lemma_slot(d, spring_kind(), at);
        assert(force_containers::has_kind(d, spring_kind()));
    }
    assert(force_containers::with_entry(d, spring_kind(), Persistence::Persistent, e) =~= holding(
        c,
        es.push(e),
    ));
}

proof fn lemma_loaded_at<R: Real>(
    slots: Seq<SlotModel<R>>,
    ps: Seq<SoftParticle<R>>,
    forces: Seq<Vector<R>>,
    h: RigidBodyHandle,
    n: nat,
    rb: BodyModel<R>,
    c: Seq<ContainerState<R>>,
    es: Seq<ForceEntry<R>>,
)
    requires
        rigid_body::body_at(slots, h) == Some(rb),
        rb.containers == holding(c, es),
        !force_containers::has_kind(c, spring_kind()),
        n <= ps.len() <= usize::MAX,
    ensures
        rigid_body::body_at(bodies::loaded(slots, ps, forces, n), h) == Some(
            BodyModel { containers: holding(c, es + entries_of(ps, forces, h, n)), ..rb },
        ),
    decreases n,
{
    if n == 0 {
        assert(es + entries_of(ps, forces, h, 0) =~= es);
    } else {
        lemma_loaded_at(slots, ps, forces, h, (n - 1) as nat, rb, c, es);
        let before = entries_of(ps, forces, h, (n - 1) as nat);
        let e = ForceEntry {
            id: n as u64,
            force: forces[n - 1],
            torque: Vector::zero(),
            point: Some(ps[n - 1].pos),
        };
        if ps[n - 1].bound_body == Some(h) {
            lemma_entry_added(c, es + before, e);
            assert((es + before).push(e) =~= es + before.push(e));
        }
    }
}

proof fn lemma_all_loaded_at<R: Real>(
    slots: Seq<SlotModel<R>>,
    s: Seq<Option<SoftState<R>>>,
    h: RigidBodyHandle,
    n: nat,
    rb: BodyModel<R>,
    c: Seq<ContainerState<R>>,
)
    requires
        rigid_body::body_at(slots, h) == Some(rb),
        rb.containers == c,
        !force_containers::has_kind(c, spring_kind()),
        n <= s.len(),
        forall|k: int|
            0 <= k < s.len() ==> ((#[trigger] s[k]) matches Some(b) ==> b.particles.len()
                <= usize::MAX),
    ensures
        rigid_body::body_at(bodies::all_loaded(slots, s, n), h) == Some(
            BodyModel { containers: holding(c, all_entries_of(s, h, n)), ..rb },
        ),
    decreases n,
{
    if n > 0 {
        lemma_all_loaded_at(slots, s, h, (n - 1) as nat, rb, c);
        let before = bodies::all_loaded(slots, s, (n - 1) as nat);
        if let Some(b) = s[n - 1] {
            if !b.sleeping {
                lemma_loaded_at(
                    before,
                    b.particles,
                    b.spring_forces(),
                    h,
                    b.particles.len(),
                    rigid_body::body_at(before, h)->0,
                    c,
                    all_entries_of(s, h, (n - 1) as nat),
                );
            }
        }
    }
}

proof fn lemma_all_loaded_elsewhere<R: Real>(
    slots: Seq<SlotModel<R>>,
    s: Seq<Option<SoftState<R>>>,
    h: RigidBodyHandle,
    n: nat,
)
    requires
        all_entries_of(s, h, n).len() == 0,
    ensures
        rigid_body::body_at(bodies::all_loaded(slots, s, n), h) == rigid_body::body_at(slots, h),
    decreases n,
{
    if n > 0 {
        lemma_all_loaded_elsewhere(slots, s, h, (n - 1) as nat);
        let before = bodies::all_loaded(slots, s, (n - 1) as nat);
        if let Some(b) = s[n - 1] {
            if !b.sleeping {
                assert(entries_of(b.particles, b.spring_forces(), h, b.particles.len()).len() == 0);
                lemma_loaded_elsewhere(
                    before,
                    b.particles,
                    b.spring_forces(),
                    h,
                    b.particles.len(),
                );
            }
        }
    }
}

proof fn lemma_loaded_elsewhere<R: Real>(
    slots: Seq<SlotModel<R>>,
    ps: Seq<SoftParticle<R>>,
    forces: Seq<Vector<R>>,
    h: RigidBodyHandle,
    n: nat,
)
    requires
        entries_of(ps, forces, h, n).len() == 0,
    ensures
        rigid_body::body_at(bodies::loaded(slots, ps, forces, n), h) == rigid_body::body_at(
            slots,
            h,
        ),
    decreases n,
{
    if n > 0 {
        lemma_loaded_elsewhere(slots, ps, forces, h, (n - 1) as nat);
    }
}

/// After the spring forces were written, a rigid body that particles are anchored to holds them
/// in a container of their own: one entry for each of these particles, in the order of the soft
/// bodies and their particles, and none from an earlier call. A rigid body that no particle is
/// anchored to is left as it was. That a body has one container of a kind, every look at it in
/// the set shows.
pub proof fn lemma_spring_forces_are_routed<R: Real>(
    slots: Seq<SlotModel<R>>,
    s: Seq<Option<SoftState<R>>>,
    h: RigidBodyHandle,
    rb: BodyModel<R>,
)
    requires
        rigid_body::body_at(slots, h) == Some(rb),
        force_containers::kinds_distinct(rb.containers),
        forall|k: int|
            0 <= k < s.len() ==> ((#[trigger] s[k]) matches Some(b) ==> b.particles.len()
                <= usize::MAX),
    ensures
        rigid_body::body_at(
            bodies::all_loaded(bodies::all_released(slots, s, s.len()), s, s.len()),
            h,
        ) == Some(
            if all_entries_of(s, h, s.len()).len() == 0 {
                rb
            } else {
                BodyModel {
                    containers: force_containers::without_kind(
                        rb.containers,
                        spring_kind(),
                    ).push(
                        ContainerState {
                            kind: spring_kind(),
                            persistence: Persistence::Persistent,
                            entries: all_entries_of(s, h, s.len()),
                        },
                    ),
                    ..rb
                }
            },
        ),
{
    let n = s.len();
    let cleared = bodies::all_released(slots, s, n);
    lemma_all_released_at(slots, s, h, n, rb);
    if all_entries_of(s, h, n).len() == 0 {
        lemma_all_loaded_elsewhere(cleared, s, h, n);
    } else {
        lemma_without_kind(rb.containers, spring_kind());
        let now = rigid_body::body_at(cleared, h)->0;
        lemma_all_loaded_at(cleared, s, h, n, now, now.containers);
    }
}

} // verus!
