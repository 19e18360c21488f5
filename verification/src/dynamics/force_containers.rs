//! Forces on a body, kept in containers by kind.
//!
//! Every kind of force has one container. A container records whether its forces persist until
//! they are removed or last for the current step only; at the end of a frame it drains itself
//! in the second case. Adding up the forces of a body does not look at that record.
use vstd::prelude::*;
use crate::dynamics::rigid_body;
use crate::dynamics::rigid_body::{
    BodyModel, RigidBody, RigidBodyForces, RigidBodyHandle, RigidBodySet, SlotModel,
};
use crate::math::{AngVector, Vector};
use crate::scalar::Real;

verus! {

/// The sum of the forces on one body.
#[derive(Clone, Copy, Debug)]
pub struct EffectiveForce<R> {
    /// Linear force in world coordinates.
    pub force: Vector<R>,
    /// Torque in world coordinates.
    pub torque: AngVector<R>,
}

impl<R: Real> EffectiveForce<R> {
    pub open spec fn spec_none() -> EffectiveForce<R> {
        EffectiveForce { force: Vector::zero(), torque: Vector::zero() }
    }

    /// No force at all.
    #[verifier::when_used_as_spec(spec_none)]
    pub fn none() -> (r: EffectiveForce<R>)
        ensures
            r == Self::spec_none(),
    {
        EffectiveForce { force: Vector::zero(), torque: Vector::zero() }
    }

    /// The sum with one more contribution. A force that acts at `point` adds its moment about
    /// the centre of mass to the torque.
    pub open spec fn plus(
        self,
        force: Vector<R>,
        torque: AngVector<R>,
        point: Option<Vector<R>>,
        world_com: Vector<R>,
    ) -> EffectiveForce<R> {
        EffectiveForce {
            force: self.force.add(force),
            torque: match point {
                Some(p) => self.torque.add(torque).add(p.sub(world_com).cross(force)),
                None => self.torque.add(torque),
            },
        }
    }
}

impl<R: Real> Default for EffectiveForce<R> {
    fn default() -> (r: EffectiveForce<R>)
        ensures
            r == EffectiveForce::<R>::spec_none(),
    {
        EffectiveForce::none()
    }
}

/// Whether the forces of a container survive the end of a step.
#[derive(Clone, Copy, Debug, PartialEq, Eq, Structural)]
pub enum Persistence {
    /// Forces stay until they are removed.
    Persistent,
    /// Forces last for the current step.
    Transient,
}

/// What a force comes from.
#[derive(Clone, Copy, Debug, PartialEq, Eq, Hash, Structural)]
#[non_exhaustive]
pub enum ForceKind {
    /// World gravity.
    Gravity,
    /// Steady or pulsed thrust.
    Thrust,
    /// A magnetic field.
    Magnetic,
    /// Wind.
    Wind,
    /// Friction that the contact solver produced.
    Friction,
    /// Normal reaction that the contact solver produced.
    ContactReaction,
    /// A one-shot event.
    Event,
    /// A plain force of the user.
    User,
    /// A kind of the user's own.
    Custom(u32),
}

impl ForceKind {
    pub open spec fn spec_is_observation(self) -> bool {
        self == ForceKind::Friction || self == ForceKind::ContactReaction
    }

    /// Whether forces of this kind only report what the solver has already applied.
    #[verifier::when_used_as_spec(spec_is_observation)]
    pub fn is_observation(self) -> (b: bool)
        ensures
            b == self.spec_is_observation(),
    {
        self == ForceKind::Friction || self == ForceKind::ContactReaction
    }
}

/// One force in a container.
#[derive(Clone, Copy, Debug)]
pub struct ForceEntry<R> {
    /// The caller's number for the force.
    pub id: u64,
    /// Linear force in world coordinates.
    pub force: Vector<R>,
    /// Torque in world coordinates.
    pub torque: AngVector<R>,
    /// World point at which the force acts; the centre of mass if there is none.
    pub point: Option<Vector<R>>,
}

/// A force that can be added to an [`EffectiveForce`].
pub trait ForceContribution<R: Real> {
    spec fn spec_force(&self) -> Vector<R>;

    /// Linear force in world coordinates.
    fn force(&self) -> (r: Vector<R>)
        ensures
            r == self.spec_force(),
    ;

    spec fn spec_torque(&self) -> AngVector<R>;

    /// Torque in world coordinates.
    fn torque(&self) -> (r: AngVector<R>)
        ensures
            r == self.spec_torque(),
    ;

    spec fn spec_point(&self) -> Option<Vector<R>>;

    /// World point at which the force acts; the centre of mass if there is none.
    fn point(&self) -> (r: Option<Vector<R>>)
        ensures
            r == self.spec_point(),
    ;

    /// Adds this contribution to `eff`, with the moment of an off-centre force.
    fn accumulate(&self, eff: &mut EffectiveForce<R>, world_com: Vector<R>)
        ensures
            *final(eff) == old(eff).plus(
                self.spec_force(),
                self.spec_torque(),
                self.spec_point(),
                world_com,
            ),
    {
        eff.force = eff.force.add(self.force());
        eff.torque = eff.torque.add(self.torque());
        if let Some(p) = self.point() {
            eff.torque = eff.torque.add(p.sub(world_com).cross(self.force()));
        }
    }
}

impl<R: Real> ForceContribution<R> for ForceEntry<R> {
    open spec fn spec_force(&self) -> Vector<R> {
        self.force
    }

    fn force(&self) -> (r: Vector<R>) {
        self.force
    }

    open spec fn spec_torque(&self) -> AngVector<R> {
        self.torque
    }

    fn torque(&self) -> (r: AngVector<R>) {
        self.torque
    }

    open spec fn spec_point(&self) -> Option<Vector<R>> {
        self.point
    }

    fn point(&self) -> (r: Option<Vector<R>>) {
        self.point
    }
}

/// The position of the first entry with number `id`, or the number of entries if none has it.
pub open spec fn position_of<R>(entries: Seq<ForceEntry<R>>, id: u64) -> int
    decreases entries.len(),
{
    if entries.len() == 0 {
        0
    } else if entries[0].id == id {
        0
    } else {
        1 + position_of(entries.drop_first(), id)
    }
}

/// The entries without the first one that has number `id`.
pub open spec fn without_id<R>(entries: Seq<ForceEntry<R>>, id: u64) -> Seq<ForceEntry<R>> {
    if has_id(entries, id) {
        entries.remove(position_of(entries, id))
    } else {
        entries
    }
}

/// Whether some entry has number `id`.
pub open spec fn has_id<R>(entries: Seq<ForceEntry<R>>, id: u64) -> bool {
    exists|i: int| 0 <= i < entries.len() && (#[trigger] entries[i]).id == id
}

proof fn lemma_position<R>(entries: Seq<ForceEntry<R>>, id: u64, at: int)
    requires
        0 <= at < entries.len(),
        entries[at].id == id,
        forall|i: int| 0 <= i < at ==> (#[trigger] entries[i]).id != id,
    ensures
        position_of(entries, id) == at,
    decreases entries.len(),
{
    if at > 0 {
        let rest = entries.drop_first();
        assert forall|i: int| 0 <= i < at - 1 implies (#[trigger] rest[i]).id != id by {
            assert(rest[i] == entries[i + 1]);
        }
        assert(entries[0].id != id);
        lemma_position(rest, id, at - 1);
    }
}

/// A holder of forces of one kind that cleans up after itself at the end of a frame.
pub trait ForceContainer<R: Real> {
    spec fn spec_kind(&self) -> ForceKind;

    /// The kind of the forces.
    fn kind(&self) -> (r: ForceKind)
        ensures
            r == self.spec_kind(),
    ;

    spec fn spec_persistence(&self) -> Persistence;

    /// Whether the forces survive the end of a step.
    fn persistence(&self) -> (r: Persistence)
        ensures
            r == self.spec_persistence(),
    ;

    /// The forces in the order in which they were added.
    spec fn spec_contributions(&self) -> Seq<ForceEntry<R>>;

    /// The forces in the order in which they were added.
    fn contributions(&self) -> (r: Vec<ForceEntry<R>>)
        ensures
            r@ == self.spec_contributions(),
    ;

    /// Removes the first force with number `id`; tells whether there was one.
    fn remove(&mut self, id: u64) -> (removed: bool)
        ensures
            removed == has_id(old(self).spec_contributions(), id),
            final(self).spec_contributions() == without_id(old(self).spec_contributions(), id),
            final(self).spec_kind() == old(self).spec_kind(),
            final(self).spec_persistence() == old(self).spec_persistence(),
    ;

    /// Removes every force.
    fn clear(&mut self)
        ensures
            final(self).spec_contributions() == Seq::<ForceEntry<R>>::empty(),
            final(self).spec_kind() == old(self).spec_kind(),
            final(self).spec_persistence() == old(self).spec_persistence(),
    ;

    /// Ends the frame: a transient container drops its forces, a persistent one keeps them.
    fn end_frame(&mut self)
        ensures
            final(self).spec_contributions() == (if old(self).spec_persistence()
                == Persistence::Transient {
                Seq::<ForceEntry<R>>::empty()
            } else {
                old(self).spec_contributions()
            }),
            final(self).spec_kind() == old(self).spec_kind(),
            final(self).spec_persistence() == old(self).spec_persistence(),
    {
        if self.persistence() == Persistence::Transient {
            self.clear();
        }
    }
}

/// What a container holds.
#[verifier::ext_equal]
pub ghost struct ContainerState<R> {
    /// The kind of the forces.
    pub kind: ForceKind,
    /// Whether they survive the end of a step.
    pub persistence: Persistence,
    /// The forces in the order in which they were added.
    pub entries: Seq<ForceEntry<R>>,
}

impl<R> ContainerState<R> {
    /// The container after the end of a frame.
    pub open spec fn end_frame(self) -> ContainerState<R> {
        if self.persistence == Persistence::Transient {
            ContainerState { entries: Seq::empty(), ..self }
        } else {
            self
        }
    }

    /// The number that a new force gets: its own, or one more than the number of forces if it
    /// has none.
    pub open spec fn assigned_id(self, id: u64) -> u64 {
        if id != 0 {
            id
        } else if self.entries.len() as u64 == u64::MAX {
            1
        } else {
            (self.entries.len() + 1) as u64
        }
    }

    /// The container with one more force.
    pub open spec fn pushed(self, entry: ForceEntry<R>) -> ContainerState<R> {
        ContainerState {
            entries: self.entries.push(ForceEntry { id: self.assigned_id(entry.id), ..entry }),
            ..self
        }
    }
}

/// The container for one kind of force.
#[derive(Debug)]
pub struct KindContainer<R> {
    kind: ForceKind,
    persistence: Persistence,
    entries: Vec<ForceEntry<R>>,
}

impl<R> View for KindContainer<R> {
    type V = ContainerState<R>;

    closed spec fn view(&self) -> ContainerState<R> {
        ContainerState {
            kind: self.kind,
            persistence: self.persistence,
            entries: self.entries@,
        }
    }
}

/// As many entries, each a clone.
pub open spec fn copied<R: Clone>(s: Seq<ForceEntry<R>>, t: Seq<ForceEntry<R>>) -> bool {
    &&& t.len() == s.len()
    &&& forall|i: int| 0 <= i < t.len() ==> cloned::<ForceEntry<R>>(s[i], #[trigger] t[i])
}

impl<R: Clone> Clone for KindContainer<R> {
    fn clone(&self) -> (c: KindContainer<R>)
        ensures
            c@.kind == self@.kind,
            c@.persistence == self@.persistence,
            copied(self@.entries, c@.entries),
    {
        KindContainer {
            kind: self.kind,
            persistence: self.persistence,
            entries: self.entries.clone(),
        }
    }
}

impl<R: Real> KindContainer<R> {
    /// An empty container.
    pub fn new(kind: ForceKind, persistence: Persistence) -> (c: KindContainer<R>)
        ensures
            c@ == (ContainerState { kind, persistence, entries: Seq::<ForceEntry<R>>::empty() }),
    {
        KindContainer { kind, persistence, entries: Vec::new() }
    }

    /// Adds a force and returns its number. A force that comes with the number zero is given
    /// one more than the number of forces.
    pub fn push(&mut self, entry: ForceEntry<R>) -> (id: u64)
        ensures
            id == old(self)@.assigned_id(entry.id),
            final(self)@ == old(self)@.pushed(entry),
    {
        let mut entry = entry;
        if entry.id == 0 {
            entry.id = (self.entries.len() as u64).wrapping_add(1);
            if entry.id == 0 {
                entry.id = 1;
            }
        }
        let id: u64 = entry.id;
        self.entries.push(entry);
        id
    }

    /// The number of forces.
    pub fn len(&self) -> (n: usize)
        ensures
            n == self@.entries.len(),
    {
        self.entries.len()
    }

    /// Whether there is no force.
    pub fn is_empty(&self) -> (b: bool)
        ensures
            b == (self@.entries.len() == 0),
    {
        self.entries.len() == 0
    }
}

impl<R: Real> ForceContainer<R> for KindContainer<R> {
    open spec fn spec_kind(&self) -> ForceKind {
        self@.kind
    }

    fn kind(&self) -> (r: ForceKind) {
        self.kind
    }

    open spec fn spec_persistence(&self) -> Persistence {
        self@.persistence
    }

    fn persistence(&self) -> (r: Persistence) {
        self.persistence
    }

    open spec fn spec_contributions(&self) -> Seq<ForceEntry<R>> {
        self@.entries
    }

    fn contributions(&self) -> (r: Vec<ForceEntry<R>>) {
        let mut out: Vec<ForceEntry<R>> = Vec::new();
        let n: usize = self.entries.len();
        for i in 0..n
            invariant
                n == self.entries@.len(),
                out@ == self.entries@.take(i as int),
        {
            out.push(self.entries[i]);
            assert(self.entries@.take(i + 1) == self.entries@.take(i as int).push(
                self.entries@[i as int],
            ));
        }
        assert(self.entries@.take(n as int) == self.entries@);
        out
    }

    fn remove(&mut self, id: u64) -> (removed: bool) {
        let n: usize = self.entries.len();
        for i in 0..n
            invariant
                n == self.entries@.len(),
                *self == *old(self),
                forall|k: int| 0 <= k < i ==> (#[trigger] self.entries@[k]).id != id,
        {
            if self.entries[i].id == id {
                proof {
                    lemma_position(self.entries@, id, i as int);
                }
                self.entries.remove(i);
                return true;
            }
        }
        false
    }

    fn clear(&mut self) {
        self.entries.clear();
    }
}

/// The position of the first container of the given kind, or the number of containers if there
/// is none.
pub open spec fn slot_of<R>(s: Seq<ContainerState<R>>, kind: ForceKind) -> int
    decreases s.len(),
{
    if s.len() == 0 {
        0
    } else if s[0].kind == kind {
        0
    } else {
        1 + slot_of(s.drop_first(), kind)
    }
}

/// Whether there is a container of the given kind.
pub open spec fn has_kind<R>(s: Seq<ContainerState<R>>, kind: ForceKind) -> bool {
    exists|i: int| 0 <= i < s.len() && (#[trigger] s[i]).kind == kind
}

/// The containers with `c` in the place of the one of its kind, or after all others.
pub open spec fn inserted<R>(
    s: Seq<ContainerState<R>>,
    c: ContainerState<R>,
) -> Seq<ContainerState<R>> {
    if has_kind(s, c.kind) {
        s.update(slot_of(s, c.kind), c)
    } else {
        s.push(c)
    }
}

/// The containers without the one of the given kind.
pub open spec fn without_kind<R>(
    s: Seq<ContainerState<R>>,
    kind: ForceKind,
) -> Seq<ContainerState<R>> {
    if has_kind(s, kind) {
        s.remove(slot_of(s, kind))
    } else {
        s
    }
}

/// The containers with one more force of the given kind; the container is made if there is none.
pub open spec fn with_entry<R>(
    s: Seq<ContainerState<R>>,
    kind: ForceKind,
    persistence: Persistence,
    entry: ForceEntry<R>,
) -> Seq<ContainerState<R>> {
    if has_kind(s, kind) {
        s.update(slot_of(s, kind), s[slot_of(s, kind)].pushed(entry))
    } else {
        s.push(ContainerState { kind, persistence, entries: Seq::empty() }.pushed(entry))
    }
}

/// The containers after the end of a frame.
pub open spec fn frame_ended<R>(s: Seq<ContainerState<R>>) -> Seq<ContainerState<R>> {
    s.map_values(|c: ContainerState<R>| c.end_frame())
}

/// An empty container for reports of the solver.
pub open spec fn fresh_report<R>(kind: ForceKind) -> ContainerState<R> {
    ContainerState { kind, persistence: Persistence::Transient, entries: Seq::empty() }
}

/// The containers with one for reports of the given kind, made if there is none.
pub open spec fn opened<R>(s: Seq<ContainerState<R>>, kind: ForceKind) -> Seq<ContainerState<R>> {
    if has_kind(s, kind) {
        s
    } else {
        s.push(fresh_report(kind))
    }
}

/// A container, started afresh if it is for reports of the solver.
pub open spec fn report_dropped<R>(c: ContainerState<R>) -> ContainerState<R> {
    if c.kind.is_observation() {
        fresh_report(c.kind)
    } else {
        c
    }
}

/// The containers with those for reports of the solver started afresh.
pub open spec fn reports_dropped<R>(s: Seq<ContainerState<R>>) -> Seq<ContainerState<R>> {
    s.map_values(|c: ContainerState<R>| report_dropped(c))
}

/// No two containers are of one kind.
pub open spec fn kinds_distinct<R>(s: Seq<ContainerState<R>>) -> bool {
    forall|i: int, j: int|
        0 <= i < j < s.len() ==> (#[trigger] s[i]).kind != (#[trigger] s[j]).kind
}

/// The first container of a kind is where its position says.
pub proof fn lemma_slot<R>(s: Seq<ContainerState<R>>, kind: ForceKind, at: int)
    requires
        0 <= at < s.len(),
        s[at].kind == kind,
        forall|i: int| 0 <= i < at ==> (#[trigger] s[i]).kind != kind,
    ensures
        slot_of(s, kind) == at,
    decreases s.len(),
{
    if at > 0 {
        let rest = s.drop_first();
        assert forall|i: int| 0 <= i < at - 1 implies (#[trigger] rest[i]).kind != kind by {
            assert(rest[i] == s[i + 1]);
        }
        assert(s[0].kind != kind);
        lemma_slot(rest, kind, at - 1);
    }
}

/// If no two containers are of one kind, the only one of a kind is where its position says.
pub proof fn lemma_slot_of_only<R>(s: Seq<ContainerState<R>>, kind: ForceKind, at: int)
    requires
        kinds_distinct(s),
        0 <= at < s.len(),
        s[at].kind == kind,
    ensures
        slot_of(s, kind) == at,
{
    assert forall|i: int| 0 <= i < at implies (#[trigger] s[i]).kind != kind by {
        assert(s[i].kind != s[at].kind);
    }
    lemma_slot(s, kind, at);
}

/// Where there is a container of a kind, its position is one.
pub proof fn lemma_slot_of_present<R>(s: Seq<ContainerState<R>>, kind: ForceKind)
    requires
        has_kind(s, kind),
    ensures
        0 <= slot_of(s, kind) < s.len(),
        s[slot_of(s, kind)].kind == kind,
    decreases s.len(),
{
    if s[0].kind != kind {
        let at = choose|i: int| 0 <= i < s.len() && (#[trigger] s[i]).kind == kind;
        assert(s.drop_first()[at - 1].kind == kind);
        lemma_slot_of_present(s.drop_first(), kind);
    }
}

/// Containers of the kinds of others, one for one.
proof fn lemma_same_kinds_distinct<R>(s: Seq<ContainerState<R>>, t: Seq<ContainerState<R>>)
    requires
        kinds_distinct(s),
        t.len() == s.len(),
        forall|i: int| 0 <= i < t.len() ==> (#[trigger] t[i]).kind == s[i].kind,
    ensures
        kinds_distinct(t),
{
    assert forall|i: int, j: int| 0 <= i < j < t.len() implies (#[trigger] t[i]).kind != (
    #[trigger] t[j]).kind by {
        assert(s[i].kind != s[j].kind);
    }
}

proof fn lemma_inserted_distinct<R>(s: Seq<ContainerState<R>>, c: ContainerState<R>)
    requires
        kinds_distinct(s),
    ensures
        kinds_distinct(inserted(s, c)),
{
    if has_kind(s, c.kind) {
        lemma_slot_of_present(s, c.kind);
    }
}

proof fn lemma_removed_distinct<R>(s: Seq<ContainerState<R>>, kind: ForceKind)
    requires
        kinds_distinct(s),
    ensures
        kinds_distinct(without_kind(s, kind)),
{
    if has_kind(s, kind) {
        lemma_slot_of_present(s, kind);
    }
}

proof fn lemma_added_distinct<R>(
    s: Seq<ContainerState<R>>,
    kind: ForceKind,
    persistence: Persistence,
    entry: ForceEntry<R>,
)
    requires
        kinds_distinct(s),
    ensures
        kinds_distinct(with_entry(s, kind, persistence, entry)),
{
    if has_kind(s, kind) {
        lemma_slot_of_present(s, kind);
    }
}

/// A body with at most one container of each kind stays such a body, whatever is inserted,
/// added, removed or drained, and whatever the solver reports.
pub proof fn lemma_kinds_stay_distinct<R>(
    s: Seq<ContainerState<R>>,
    c: ContainerState<R>,
    persistence: Persistence,
    entry: ForceEntry<R>,
)
    requires
        kinds_distinct(s),
    ensures
        kinds_distinct(inserted(s, c)),
        kinds_distinct(without_kind(s, c.kind)),
        kinds_distinct(with_entry(s, c.kind, persistence, entry)),
        kinds_distinct(frame_ended(s)),
        kinds_distinct(opened(s, c.kind)),
        kinds_distinct(reports_dropped(s)),
{
    lemma_inserted_distinct(s, c);
    lemma_removed_distinct(s, c.kind);
    lemma_added_distinct(s, c.kind, persistence, entry);
    lemma_same_kinds_distinct(s, frame_ended(s));
    lemma_same_kinds_distinct(s, reports_dropped(s));
}

/// The force containers of one body: at most one per kind, in the order in which the kinds first
/// appeared.
#[derive(Debug)]
pub struct BodyForceContainers<R> {
    slots: Vec<KindContainer<R>>,
}

impl<R> View for BodyForceContainers<R> {
    type V = Seq<ContainerState<R>>;

    closed spec fn view(&self) -> Seq<ContainerState<R>> {
        self.slots@.map_values(|c: KindContainer<R>| c@)
    }
}

impl<R> BodyForceContainers<R> {
    /// Every kind of force has at most one container.
    #[verifier::type_invariant]
    pub open spec fn one_per_kind(self) -> bool {
        kinds_distinct(self@)
    }
}

impl<R: Clone> Clone for BodyForceContainers<R> {
    fn clone(&self) -> (r: BodyForceContainers<R>)
        ensures
            r@.len() == self@.len(),
            forall|i: int|
                0 <= i < r@.len() ==> (#[trigger] r@[i]).kind == self@[i].kind && r@[i].persistence
                    == self@[i].persistence && copied(self@[i].entries, r@[i].entries),
    {
        proof {
            use_type_invariant(&*self);
        }
        let mut slots: Vec<KindContainer<R>> = Vec::new();
        let n: usize = self.slots.len();
        for i in 0..n
            invariant
                n == self.slots@.len(),
                slots@.len() == i,
                forall|k: int|
                    0 <= k < i ==> (#[trigger] slots@[k])@.kind == self.slots@[k]@.kind
                        && slots@[k]@.persistence == self.slots@[k]@.persistence && copied(
                        self.slots@[k]@.entries,
                        slots@[k]@.entries,
                    ),
        {
            slots.push(self.slots[i].clone());
        }
        proof {
            lemma_same_kinds_distinct(self@, slots@.map_values(|c: KindContainer<R>| c@));
        }
        BodyForceContainers { slots }
    }
}

impl<R: Real> BodyForceContainers<R> {
    /// No containers.
    pub fn new() -> (r: BodyForceContainers<R>)
        ensures
            r@ == Seq::<ContainerState<R>>::empty(),
    {
        BodyForceContainers { slots: Vec::new() }
    }

    /// The number of containers; no two of them are of one kind.
    pub fn len(&self) -> (n: usize)
        ensures
            n == self@.len(),
            kinds_distinct(self@),
    {
        proof {
            use_type_invariant(&*self);
        }
        self.slots.len()
    }

    /// Whether there is no container.
    pub fn is_empty(&self) -> (b: bool)
        ensures
            b == (self@.len() == 0),
    {
        self.slots.len() == 0
    }

    /// The container at a position.
    pub fn at(&self, i: usize) -> (c: &KindContainer<R>)
        requires
            i < self@.len(),
        ensures
            c@ == self@[i as int],
    {
        &self.slots[i]
    }

    /// The position of the container of the given kind.
    fn find(&self, kind: ForceKind) -> (r: Option<usize>)
        ensures
            match r {
                Some(i) => has_kind(self@, kind) && i == slot_of(self@, kind) && i < self@.len()
                    && self@[i as int].kind == kind,
                None => !has_kind(self@, kind),
            },
    {
        let n: usize = self.slots.len();
        for i in 0..n
            invariant
                n == self@.len(),
                n == self.slots@.len(),
                forall|k: int| 0 <= k < i ==> (#[trigger] self@[k]).kind != kind,
        {
            assert(self@[i as int] == self.slots@[i as int]@);
            if self.slots[i].kind == kind {
                proof {
                    lemma_slot(self@, kind, i as int);
                }
                return Some(i);
            }
        }
        None
    }

    /// The container of the given kind.
    pub fn get(&self, kind: ForceKind) -> (r: Option<&KindContainer<R>>)
        ensures
            match r {
                Some(c) => has_kind(self@, kind) && c@ == self@[slot_of(self@, kind)],
                None => !has_kind(self@, kind),
            },
    {
        match self.find(kind) {
            Some(i) => Some(&self.slots[i]),
            None => None,
        }
    }

    /// Puts a container in the place of the one of its kind.
    pub fn insert(&mut self, container: KindContainer<R>)
        ensures
            final(self)@ == inserted(old(self)@, container@),
    {
        proof {
            use_type_invariant(&*self);
            lemma_inserted_distinct(self@, container@);
        }
        let found = self.find(container.kind);
        let mut slots: Vec<KindContainer<R>> = Vec::new();
        std::mem::swap(&mut slots, &mut self.slots);
        match found {
            Some(i) => {
                slots[i] = container;
            },
            None => {
                slots.push(container);
            },
        }
        assert(slots@.map_values(|c: KindContainer<R>| c@) =~= inserted(old(self)@, container@));
        self.slots = slots;
    }

    /// Removes the container of the given kind; tells whether there was one.
    pub fn remove(&mut self, kind: ForceKind) -> (removed: bool)
        ensures
            removed == has_kind(old(self)@, kind),
            final(self)@ == without_kind(old(self)@, kind),
    {
        proof {
            use_type_invariant(&*self);
            lemma_removed_distinct(self@, kind);
        }
        match self.find(kind) {
            Some(i) => {
                let mut slots: Vec<KindContainer<R>> = Vec::new();
                std::mem::swap(&mut slots, &mut self.slots);
                slots.remove(i);
                assert(slots@.map_values(|c: KindContainer<R>| c@) =~= without_kind(
                    old(self)@,
                    kind,
                ));
                self.slots = slots;
                true
            },
            None => false,
        }
    }

    /// Adds a force of the given kind and returns its number. A container that has to be made
    /// for it gets the given persistence.
    pub fn push_entry(
        &mut self,
        kind: ForceKind,
        persistence: Persistence,
        entry: ForceEntry<R>,
    ) -> (id: u64)
        ensures
            final(self)@ == with_entry(old(self)@, kind, persistence, entry),
            id == (if has_kind(old(self)@, kind) {
                old(self)@[slot_of(old(self)@, kind)].assigned_id(entry.id)
            } else if entry.id != 0 {
                entry.id
            } else {
                1
            }),
    {
        proof {
            use_type_invariant(&*self);
            lemma_added_distinct(self@, kind, persistence, entry);
        }
        let found = self.find(kind);
        let mut slots: Vec<KindContainer<R>> = Vec::new();
        std::mem::swap(&mut slots, &mut self.slots);
        let id: u64 = match found {
            Some(i) => slots[i].push(entry),
            None => {
                let mut container = KindContainer::new(kind, persistence);
                let id: u64 = container.push(entry);
                slots.push(container);
                id
            },
        };
        assert(slots@.map_values(|c: KindContainer<R>| c@) =~= with_entry(
            old(self)@,
            kind,
            persistence,
            entry,
        ));
        self.slots = slots;
        id
    }

    /// Makes sure that there is a container for reports of the given kind.
    fn open_report(&mut self, kind: ForceKind)
        ensures
            final(self)@ == opened(old(self)@, kind),
    {
        proof {
            use_type_invariant(&*self);
        }
        if self.find(kind).is_none() {
            let mut slots: Vec<KindContainer<R>> = Vec::new();
            std::mem::swap(&mut slots, &mut self.slots);
            slots.push(KindContainer::new(kind, Persistence::Transient));
            assert(slots@.map_values(|c: KindContainer<R>| c@) =~= opened(old(self)@, kind));
            self.slots = slots;
        }
    }

    /// Starts the containers for reports of the solver afresh.
    fn drop_reports(&mut self)
        ensures
            final(self)@ == reports_dropped(old(self)@),
    {
        proof {
            use_type_invariant(&*self);
        }
        let mut slots: Vec<KindContainer<R>> = Vec::new();
        std::mem::swap(&mut slots, &mut self.slots);
        let ghost before = slots@;
        let n: usize = slots.len();
        for i in 0..n
            invariant
                n == slots@.len(),
                n == before.len(),
                forall|k: int| 0 <= k < i ==> (#[trigger] slots@[k])@ == report_dropped(before[k]@),
                forall|k: int| i <= k < n ==> #[trigger] slots@[k] == before[k],
        {
            let kind = slots[i].kind;
            if kind.is_observation() {
                slots[i] = KindContainer::new(kind, Persistence::Transient);
            }
        }
        assert(slots@.map_values(|c: KindContainer<R>| c@) =~= reports_dropped(old(self)@));
        proof {
            lemma_same_kinds_distinct(old(self)@, reports_dropped(old(self)@));
        }
        self.slots = slots;
    }

    /// Ends the frame for every container.
    pub fn end_frame(&mut self)
        ensures
            final(self)@ == frame_ended(old(self)@),
    {
        proof {
            use_type_invariant(&*self);
        }
        let mut slots: Vec<KindContainer<R>> = Vec::new();
        std::mem::swap(&mut slots, &mut self.slots);
        let ghost before = slots@;
        let n: usize = slots.len();
        for i in 0..n
            invariant
                n == slots@.len(),
                n == before.len(),
                forall|k: int| 0 <= k < i ==> (#[trigger] slots@[k])@ == before[k]@.end_frame(),
                forall|k: int| i <= k < n ==> #[trigger] slots@[k] == before[k],
        {
            if slots[i].persistence == Persistence::Transient && !slots[i].is_empty() {
                slots[i].end_frame();
            }
            assert(slots@[i as int]@ =~= before[i as int]@.end_frame());
        }
        assert(slots@.map_values(|c: KindContainer<R>| c@) =~= frame_ended(old(self)@));
        proof {
            lemma_same_kinds_distinct(old(self)@, frame_ended(old(self)@));
        }
        self.slots = slots;
    }
}

/// The gravity part of the forces on a body: every entry of the container is an acceleration.
pub open spec fn gravity_sum<R: Real>(
    start: Vector<R>,
    entries: Seq<ForceEntry<R>>,
    mass: Vector<R>,
    scale: R,
    n: nat,
) -> Vector<R>
    decreases n,
{
    if n == 0 {
        start
    } else {
        gravity_sum(start, entries, mass, scale, (n - 1) as nat).add(
            entries[n - 1].force.component_mul(mass).scale(scale),
        )
    }
}

/// The sum `start` with the first `n` forces of a container added in their order.
pub open spec fn entries_sum<R: Real>(
    start: EffectiveForce<R>,
    entries: Seq<ForceEntry<R>>,
    world_com: Vector<R>,
    n: nat,
) -> EffectiveForce<R>
    decreases n,
{
    if n == 0 {
        start
    } else {
        let e = entries[n - 1];
        entries_sum(start, entries, world_com, (n - 1) as nat).plus(
            e.force,
            e.torque,
            e.point,
            world_com,
        )
    }
}

/// The sum `start` with the first `n` containers added in their order. Containers that only
/// report what the solver applied are left out.
pub open spec fn containers_sum<R: Real>(
    start: EffectiveForce<R>,
    s: Seq<ContainerState<R>>,
    world_com: Vector<R>,
    n: nat,
) -> EffectiveForce<R>
    decreases n,
{
    if n == 0 {
        start
    } else {
        let before = containers_sum(start, s, world_com, (n - 1) as nat);
        let c = s[n - 1];
        if c.kind.is_observation() {
            before
        } else {
            entries_sum(before, c.entries, world_com, c.entries.len())
        }
    }
}

/// The sum of all forces on a body: the user's, gravity's, and those of its containers.
pub open spec fn body_force<R: Real>(
    rb: BodyModel<R>,
    gravity: Seq<ForceEntry<R>>,
) -> EffectiveForce<R> {
    let user = Vector::zero().add(rb.forces.user_force);
    containers_sum(
        EffectiveForce {
            force: gravity_sum(
                user,
                gravity,
                rb.mprops.effective_mass,
                rb.forces.gravity_scale,
                gravity.len(),
            ),
            torque: Vector::zero().add(rb.forces.user_torque),
        },
        rb.containers,
        rb.mprops.world_com,
        rb.containers.len(),
    )
}

fn sum_entries<R: Real>(
    eff: &mut EffectiveForce<R>,
    container: &KindContainer<R>,
    world_com: Vector<R>,
)
    ensures
        *final(eff) == entries_sum(
            *old(eff),
            container@.entries,
            world_com,
            container@.entries.len(),
        ),
{
    let n: usize = container.entries.len();
    for i in 0..n
        invariant
            n == container@.entries.len(),
            *eff == entries_sum(*old(eff), container@.entries, world_com, i as nat),
    {
        container.entries[i].accumulate(eff, world_com);
    }
}

/// Adds up the forces on a body and stores the sum as the force and torque that the solver
/// applies.
///
/// The entries of the gravity container are accelerations; each is scaled by the body's mass and
/// gravity scale. Whether a container is persistent does not matter here.
pub fn compute_body_effective_forces<R: Real>(
    rb: &mut RigidBody<R>,
    gravity_container: &KindContainer<R>,
)
    ensures
        final(rb)@ == (BodyModel {
            forces: RigidBodyForces {
                force: body_force(old(rb)@, gravity_container@.entries).force,
                torque: body_force(old(rb)@, gravity_container@.entries).torque,
                ..old(rb)@.forces
            },
            ..old(rb)@
        }),
{
    let mut eff = EffectiveForce::none();
    eff.force = eff.force.add(rb.forces.user_force);
    eff.torque = eff.torque.add(rb.forces.user_torque);
    let mass = rb.mprops.effective_mass;
    let gravity_scale = rb.forces.gravity_scale;
    let ghost user = eff;
    let gravity_count: usize = gravity_container.entries.len();
    for i in 0..gravity_count
        invariant
            gravity_count == gravity_container@.entries.len(),
            eff.force == gravity_sum(
                user.force,
                gravity_container@.entries,
                mass,
                gravity_scale,
                i as nat,
            ),
            eff.torque == user.torque,
    {
        eff.force = eff.force.add(
            gravity_container.entries[i].force.component_mul(mass).scale(gravity_scale),
        );
    }
    let world_com = rb.mprops.world_com;
    let ghost start = eff;
    let count: usize = rb.force_containers.len();
    for i in 0..count
        invariant
            count == rb.force_containers@.len(),
            *rb == *old(rb),
            eff == containers_sum(start, rb.force_containers@, world_com, i as nat),
    {
        let container = rb.force_containers.at(i);
        if !container.kind().is_observation() {
            sum_entries(&mut eff, container, world_com);
        }
    }
    rb.forces.force = eff.force;
    rb.forces.torque = eff.torque;
}

/// Ends the frame for the force containers of a body: forces that last for one step are dropped,
/// persistent ones stay.
pub fn drain_transient_forces<R: Real>(rb: &mut RigidBody<R>)
    ensures
        final(rb)@ == (BodyModel {
            containers: frame_ended(old(rb)@.containers),
            ..old(rb)@
        }),
{
    if rb.force_containers.is_empty() {
        assert(frame_ended(rb@.containers) == rb@.containers);
        return;
    }
    rb.force_containers.end_frame();
}

/// One contact point as the solver left it.
#[derive(Clone, Copy, Debug)]
pub struct SolverContact<R> {
    /// Impulse along the normal.
    pub impulse: R,
    /// Impulses along the two tangents.
    pub tangent_impulse: [R; 2],
    /// Lever arm from the centre of mass of the first body.
    pub dp1: Vector<R>,
}

/// Contact points that share a normal.
#[derive(Clone, Debug)]
pub struct SolverManifold<R> {
    /// Normal from the first body to the second.
    pub normal: Vector<R>,
    /// Two directions that span the contact plane.
    pub tangents: [Vector<R>; 2],
    /// First body.
    pub rigid_body1: Option<RigidBodyHandle>,
    /// Second body.
    pub rigid_body2: Option<RigidBodyHandle>,
    /// Contact points.
    pub contacts: Vec<SolverContact<R>>,
}

/// The contacts between two colliders.
#[derive(Clone, Debug)]
pub struct ContactPair<R> {
    /// Manifolds that the solver worked on.
    pub manifolds: Vec<SolverManifold<R>>,
}

/// Reaction and friction of a pair on its first body.
#[derive(Clone, Copy, Debug)]
pub struct PairForce<R> {
    /// Sum of the normal forces.
    pub reaction: Vector<R>,
    /// Sum of the tangential forces.
    pub friction: Vector<R>,
    /// Torque of the normal forces.
    pub reaction_torque: AngVector<R>,
    /// Torque of the tangential forces.
    pub friction_torque: AngVector<R>,
}

impl<R: Real> PairForce<R> {
    pub open spec fn spec_none() -> PairForce<R> {
        PairForce {
            reaction: Vector::zero(),
            friction: Vector::zero(),
            reaction_torque: Vector::zero(),
            friction_torque: Vector::zero(),
        }
    }

    /// No force.
    #[verifier::when_used_as_spec(spec_none)]
    pub fn none() -> (r: PairForce<R>)
        ensures
            r == Self::spec_none(),
    {
        PairForce {
            reaction: Vector::zero(),
            friction: Vector::zero(),
            reaction_torque: Vector::zero(),
            friction_torque: Vector::zero(),
        }
    }

    pub open spec fn spec_plus(
        self,
        normal: Vector<R>,
        tangents: [Vector<R>; 2],
        c: SolverContact<R>,
        inv_dt: R,
    ) -> PairForce<R> {
        let reaction = normal.neg().scale(c.impulse.mul(inv_dt));
        let friction = tangents[0].scale(c.tangent_impulse[0]).add(
            tangents[1].scale(c.tangent_impulse[1]),
        ).neg().scale(inv_dt);
        PairForce {
            reaction: self.reaction.add(reaction),
            friction: self.friction.add(friction),
            reaction_torque: self.reaction_torque.add(c.dp1.cross(reaction)),
            friction_torque: self.friction_torque.add(c.dp1.cross(friction)),
        }
    }

    /// The sum with one more contact point.
    #[verifier::when_used_as_spec(spec_plus)]
    pub fn plus(
        self,
        normal: Vector<R>,
        tangents: [Vector<R>; 2],
        c: SolverContact<R>,
        inv_dt: R,
    ) -> (r: PairForce<R>)
        ensures
            r == self.spec_plus(normal, tangents, c, inv_dt),
    {
        let reaction = normal.neg().scale(c.impulse.mul(inv_dt));
        let friction = tangents[0].scale(c.tangent_impulse[0]).add(
            tangents[1].scale(c.tangent_impulse[1]),
        ).neg().scale(inv_dt);
        PairForce {
            reaction: self.reaction.add(reaction),
            friction: self.friction.add(friction),
            reaction_torque: self.reaction_torque.add(c.dp1.cross(reaction)),
            friction_torque: self.friction_torque.add(c.dp1.cross(friction)),
        }
    }

    pub open spec fn spec_opposite(self) -> PairForce<R> {
        PairForce {
            reaction: self.reaction.neg(),
            friction: self.friction.neg(),
            reaction_torque: self.reaction_torque.neg(),
            friction_torque: self.friction_torque.neg(),
        }
    }

    /// The force on the other body.
    #[verifier::when_used_as_spec(spec_opposite)]
    pub fn opposite(self) -> (r: PairForce<R>)
        ensures
            r == self.spec_opposite(),
    {
        PairForce {
            reaction: self.reaction.neg(),
            friction: self.friction.neg(),
            reaction_torque: self.reaction_torque.neg(),
            friction_torque: self.friction_torque.neg(),
        }
    }
}

/// The sum `start` with the first `n` contacts of a manifold.
pub open spec fn manifold_force<R: Real>(
    start: PairForce<R>,
    m: SolverManifold<R>,
    inv_dt: R,
    n: nat,
) -> PairForce<R>
    decreases n,
{
    if n == 0 {
        start
    } else {
        manifold_force(start, m, inv_dt, (n - 1) as nat).plus(
            m.normal,
            m.tangents,
            m.contacts@[n - 1],
            inv_dt,
        )
    }
}

/// The force of the first `n` manifolds.
pub open spec fn manifolds_force<R: Real>(
    ms: Seq<SolverManifold<R>>,
    inv_dt: R,
    n: nat,
) -> PairForce<R>
    decreases n,
{
    if n == 0 {
        PairForce::none()
    } else {
        manifold_force(
            manifolds_force(ms, inv_dt, (n - 1) as nat),
            ms[n - 1],
            inv_dt,
            ms[n - 1].contacts@.len(),
        )
    }
}

/// The bodies of the first `n` manifolds: those of the first one that names its first body.
pub open spec fn manifolds_bodies<R>(
    ms: Seq<SolverManifold<R>>,
    n: nat,
) -> (Option<RigidBodyHandle>, Option<RigidBodyHandle>)
    decreases n,
{
    if n == 0 {
        (None, None)
    } else {
        let before = manifolds_bodies(ms, (n - 1) as nat);
        if before.0 is None {
            (ms[n - 1].rigid_body1, ms[n - 1].rigid_body2)
        } else {
            before
        }
    }
}

/// The containers once a force is reported in that of its kind: it gets an entry there if it has
/// a positive length.
pub open spec fn with_report<R: Real>(
    s: Seq<ContainerState<R>>,
    kind: ForceKind,
    force: Vector<R>,
    torque: AngVector<R>,
) -> Seq<ContainerState<R>> {
    if R::zero().lt(force.length_squared()) {
        with_entry(
            opened(s, kind),
            kind,
            Persistence::Transient,
            ForceEntry { id: 1, force, torque, point: None },
        )
    } else {
        opened(s, kind)
    }
}

/// The containers of a body once a pair's forces are reported in them.
pub open spec fn contact_reported<R: Real>(
    s: Seq<ContainerState<R>>,
    f: PairForce<R>,
) -> Seq<ContainerState<R>> {
    with_report(
        with_report(s, ForceKind::ContactReaction, f.reaction, f.reaction_torque),
        ForceKind::Friction,
        f.friction,
        f.friction_torque,
    )
}

/// A place whose body has no reports of the solver.
pub open spec fn place_cleared<R>(p: SlotModel<R>) -> SlotModel<R> {
    SlotModel {
        generation: p.generation,
        body: match p.body {
            Some(rb) => Some(BodyModel { containers: reports_dropped(rb.containers), ..rb }),
            None => None,
        },
    }
}

/// The bodies without reports of the solver.
pub open spec fn reports_cleared<R>(slots: Seq<SlotModel<R>>) -> Seq<SlotModel<R>> {
    slots.map_values(|p: SlotModel<R>| place_cleared(p))
}

/// The bodies once a pair's forces are reported to the one that `h` names, if it is there.
pub open spec fn body_reported<R: Real>(
    slots: Seq<SlotModel<R>>,
    h: RigidBodyHandle,
    f: PairForce<R>,
) -> Seq<SlotModel<R>> {
    match rigid_body::body_at(slots, h) {
        Some(rb) => rigid_body::with_body(
            slots,
            h,
            BodyModel { containers: contact_reported(rb.containers, f), ..rb },
        ),
        None => slots,
    }
}

/// The bodies once a pair's forces are reported to both of them.
pub open spec fn pair_reported<R: Real>(
    slots: Seq<SlotModel<R>>,
    pair: ContactPair<R>,
    inv_dt: R,
) -> Seq<SlotModel<R>> {
    let ms = pair.manifolds@;
    let f = manifolds_force(ms, inv_dt, ms.len());
    match manifolds_bodies(ms, ms.len()) {
        (Some(h1), Some(h2)) => body_reported(body_reported(slots, h1, f), h2, f.opposite()),
        _ => slots,
    }
}

/// The bodies once the first `n` pairs are reported.
pub open spec fn pairs_reported<R: Real>(
    slots: Seq<SlotModel<R>>,
    pairs: Seq<ContactPair<R>>,
    inv_dt: R,
    n: nat,
) -> Seq<SlotModel<R>>
    decreases n,
{
    if n == 0 {
        slots
    } else {
        pair_reported(
            pairs_reported(slots, pairs, inv_dt, (n - 1) as nat),
            pairs[n - 1],
            inv_dt,
        )
    }
}

fn add_manifold<R: Real>(sum: &mut PairForce<R>, m: &SolverManifold<R>, inv_dt: R)
    ensures
        *final(sum) == manifold_force(*old(sum), *m, inv_dt, m.contacts@.len()),
{
    let n: usize = m.contacts.len();
    for i in 0..n
        invariant
            n == m.contacts@.len(),
            *sum == manifold_force(*old(sum), *m, inv_dt, i as nat),
    {
        *sum = sum.plus(m.normal, m.tangents, m.contacts[i], inv_dt);
    }
}

/// Reports what the contact solver applied: the normal and tangential forces of every pair go
/// into the reaction and friction containers of its two bodies, with opposite signs.
///
/// These containers are started afresh for all bodies first, so that a pair that no longer touches
/// leaves no entry. Forces are impulses divided by the time step. The containers are for reading
/// only; the sum of a body's forces leaves them out.
pub fn bridge_solver_contact_forces<R: Real>(
    contact_pairs: &[ContactPair<R>],
    bodies: &mut RigidBodySet<R>,
    dt: R,
)
    ensures
        final(bodies)@ == pairs_reported(
            reports_cleared(old(bodies)@),
            contact_pairs@,
            dt.inv(),
            contact_pairs@.len(),
        ),
{
    clear_reports(bodies);
    let ghost cleared = bodies@;
    let inv_dt = dt.inv();
    let n: usize = contact_pairs.len();
    for i in 0..n
        invariant
            n == contact_pairs@.len(),
            inv_dt == dt.spec_inv(),
            bodies@ == pairs_reported(cleared, contact_pairs@, inv_dt, i as nat),
    {
        bridge_pair(&contact_pairs[i], bodies, inv_dt);
    }
}

fn clear_reports<R: Real>(bodies: &mut RigidBodySet<R>)
    ensures
        final(bodies)@ == reports_cleared(old(bodies)@),
{
    let n: usize = bodies.len();
    let ghost before = bodies@;
    for i in 0..n
        invariant
            n == bodies@.len(),
            n == before.len(),
            forall|k: int| 0 <= k < i ==> #[trigger] bodies@[k] == place_cleared(before[k]),
            forall|k: int| i <= k < n ==> #[trigger] bodies@[k] == before[k],
    {
        assert(bodies@[i as int] == before[i as int]);
        if let Some(rb) = bodies.place_mut(i) {
            rb.force_containers.drop_reports();
        }
    }
    assert(bodies@ =~= reports_cleared(before));
}

fn bridge_pair<R: Real>(pair: &ContactPair<R>, bodies: &mut RigidBodySet<R>, inv_dt: R)
    ensures
        final(bodies)@ == pair_reported(old(bodies)@, *pair, inv_dt),
{
    let mut sum = PairForce::none();
    let mut rb1: Option<RigidBodyHandle> = None;
    let mut rb2: Option<RigidBodyHandle> = None;
    let n: usize = pair.manifolds.len();
    for i in 0..n
        invariant
            n == pair.manifolds@.len(),
            sum == manifolds_force(pair.manifolds@, inv_dt, i as nat),
            (rb1, rb2) == manifolds_bodies(pair.manifolds@, i as nat),
    {
        let m = &pair.manifolds[i];
        add_manifold(&mut sum, m, inv_dt);
        if rb1.is_none() {
            rb1 = m.rigid_body1;
            rb2 = m.rigid_body2;
        }
    }
    if let (Some(h1), Some(h2)) = (rb1, rb2) {
        if let Some(rb) = bodies.get_mut(h1) {
            write_contact_observation(rb, sum);
        }
        if let Some(rb) = bodies.get_mut(h2) {
            write_contact_observation(rb, sum.opposite());
        }
    }
}

/// Adds the forces of one pair to the reaction and friction containers of a body.
fn write_contact_observation<R: Real>(rb: &mut RigidBody<R>, f: PairForce<R>)
    ensures
        final(rb)@ == (BodyModel {
            containers: contact_reported(old(rb)@.containers, f),
            ..old(rb)@
        }),
{
    write_report(
        &mut rb.force_containers,
        ForceKind::ContactReaction,
        f.reaction,
        f.reaction_torque,
    );
    write_report(&mut rb.force_containers, ForceKind::Friction, f.friction, f.friction_torque);
}

fn write_report<R: Real>(
    containers: &mut BodyForceContainers<R>,
    kind: ForceKind,
    force: Vector<R>,
    torque: AngVector<R>,
)
    ensures
        final(containers)@ == with_report(old(containers)@, kind, force, torque),
{
    containers.open_report(kind);
    if R::zero().lt(force.length_squared()) {
        containers.push_entry(
            kind,
            Persistence::Transient,
            ForceEntry { id: 1, force, torque, point: None },
        );
    }
}

/// A force that was added under a number of its own can be removed by that number, which leaves
/// the container as it was.
pub proof fn lemma_removing_undoes_adding<R>(c: ContainerState<R>, entry: ForceEntry<R>)
    requires
        !has_id(c.entries, c.assigned_id(entry.id)),
    ensures
        has_id(c.pushed(entry).entries, c.assigned_id(entry.id)),
        without_id(c.pushed(entry).entries, c.assigned_id(entry.id)) == c.entries,
{
    let id = c.assigned_id(entry.id);
    let after = c.pushed(entry).entries;
    let at = c.entries.len() as int;
    assert(after[at].id == id);
    assert forall|i: int| 0 <= i < at implies (#[trigger] after[i]).id != id by {
        assert(after[i] == c.entries[i]);
    }
    lemma_position(after, id, at);
    assert(after.remove(at) =~= c.entries);
}

/// Two lists of containers that differ in reports of the solver only have the same sum.
proof fn lemma_sum_without_reports<R: Real>(
    start: EffectiveForce<R>,
    s: Seq<ContainerState<R>>,
    t: Seq<ContainerState<R>>,
    world_com: Vector<R>,
    n: nat,
)
    requires
        n <= s.len(),
        n <= t.len(),
        forall|i: int|
            0 <= i < n ==> #[trigger] s[i] == t[i] || (s[i].kind.is_observation()
                && t[i].kind.is_observation()),
    ensures
        containers_sum(start, s, world_com, n) == containers_sum(start, t, world_com, n),
    decreases n,
{
    if n > 0 {
        lemma_sum_without_reports(start, s, t, world_com, (n - 1) as nat);
        assert(s[n - 1] == t[n - 1] || (s[n - 1].kind.is_observation()
            && t[n - 1].kind.is_observation()));
    }
}

proof fn lemma_sum_with_report<R: Real>(
    start: EffectiveForce<R>,
    s: Seq<ContainerState<R>>,
    kind: ForceKind,
    force: Vector<R>,
    torque: AngVector<R>,
    world_com: Vector<R>,
)
    requires
        kind.is_observation(),
    ensures
        containers_sum(
            start,
            with_report(s, kind, force, torque),
            world_com,
            with_report(s, kind, force, torque).len(),
        ) == containers_sum(start, s, world_com, s.len()),
{
    let o = opened(s, kind);
    let t = with_report(s, kind, force, torque);
    if !has_kind(s, kind) {
        assert(o[s.len() as int].kind == kind);
    }
    lemma_slot_of_present(o, kind);
    assert forall|i: int| 0 <= i < s.len() implies #[trigger] s[i] == t[i] || (
    s[i].kind.is_observation() && t[i].kind.is_observation()) by {
        assert(o[i] == s[i]);
    }
    lemma_sum_without_reports(start, s, t, world_com, s.len());
    if t.len() > s.len() {
        assert(t[s.len() as int].kind == kind);
    }
}

/// The force on a body before anything of its containers.
spec fn uncontained<R: Real>(rb: BodyModel<R>, gravity: Seq<ForceEntry<R>>) -> EffectiveForce<R> {
    EffectiveForce {
        force: gravity_sum(
            Vector::zero().add(rb.forces.user_force),
            gravity,
            rb.mprops.effective_mass,
            rb.forces.gravity_scale,
            gravity.len(),
        ),
        torque: Vector::zero().add(rb.forces.user_torque),
    }
}

proof fn lemma_contact_report_does_not_act<R: Real>(
    rb: BodyModel<R>,
    gravity: Seq<ForceEntry<R>>,
    f: PairForce<R>,
)
    ensures
        body_force(
            BodyModel { containers: contact_reported(rb.containers, f), ..rb },
            gravity,
        ) == body_force(rb, gravity),
{
    let start = uncontained(rb, gravity);
    let com = rb.mprops.world_com;
    let first = with_report(
        rb.containers,
        ForceKind::ContactReaction,
        f.reaction,
        f.reaction_torque,
    );
    lemma_sum_with_report(
        start,
        rb.containers,
        ForceKind::ContactReaction,
        f.reaction,
        f.reaction_torque,
        com,
    );
    lemma_sum_with_report(start, first, ForceKind::Friction, f.friction, f.friction_torque, com);
}

/// Two sets of places in which the body that `h` names is there and has the same sum of forces.
spec fn same_force<R: Real>(
    a: Seq<SlotModel<R>>,
    b: Seq<SlotModel<R>>,
    h: RigidBodyHandle,
    gravity: Seq<ForceEntry<R>>,
) -> bool {
    &&& rigid_body::body_at(a, h) is Some
    &&& rigid_body::body_at(b, h) is Some
    &&& body_force(rigid_body::body_at(a, h)->0, gravity) == body_force(
        rigid_body::body_at(b, h)->0,
        gravity,
    )
}

proof fn lemma_body_report_does_not_act<R: Real>(
    slots: Seq<SlotModel<R>>,
    to: RigidBodyHandle,
    f: PairForce<R>,
    h: RigidBodyHandle,
    gravity: Seq<ForceEntry<R>>,
)
    requires
        rigid_body::body_at(slots, h) is Some,
    ensures
        same_force(slots, body_reported(slots, to, f), h, gravity),
{
    if let Some(rb) = rigid_body::body_at(slots, to) {
        lemma_contact_report_does_not_act(rb, gravity, f);
    }
}

proof fn lemma_clearing_does_not_act<R: Real>(
    slots: Seq<SlotModel<R>>,
    h: RigidBodyHandle,
    gravity: Seq<ForceEntry<R>>,
)
    requires
        rigid_body::body_at(slots, h) is Some,
    ensures
        same_force(slots, reports_cleared(slots), h, gravity),
{
    let rb = rigid_body::body_at(slots, h)->0;
    assert(reports_cleared(slots)[h.index as int] == place_cleared(slots[h.index as int]));
    lemma_sum_without_reports(
        uncontained(rb, gravity),
        rb.containers,
        reports_dropped(rb.containers),
        rb.mprops.world_com,
        rb.containers.len(),
    );
}

/// What is reported of the contacts is for reading only: the sum of the forces on every body is
/// the same before and after.
pub proof fn lemma_reports_do_not_act<R: Real>(
    slots: Seq<SlotModel<R>>,
    pairs: Seq<ContactPair<R>>,
    inv_dt: R,
    n: nat,
    h: RigidBodyHandle,
    gravity: Seq<ForceEntry<R>>,
)
    requires
        n <= pairs.len(),
        rigid_body::body_at(slots, h) is Some,
    ensures
        rigid_body::body_at(
            pairs_reported(reports_cleared(slots), pairs, inv_dt, n),
            h,
        ) is Some,
        body_force(
            rigid_body::body_at(pairs_reported(reports_cleared(slots), pairs, inv_dt, n), h)->0,
            gravity,
        ) == body_force(rigid_body::body_at(slots, h)->0, gravity),
    decreases n,
{
    if n == 0 {
        lemma_clearing_does_not_act(slots, h, gravity);
    } else {
        lemma_reports_do_not_act(slots, pairs, inv_dt, (n - 1) as nat, h, gravity);
        let before = pairs_reported(reports_cleared(slots), pairs, inv_dt, (n - 1) as nat);
        let ms = pairs[n - 1].manifolds@;
        let f = manifolds_force(ms, inv_dt, ms.len());
        if let (Some(h1), Some(h2)) = manifolds_bodies(ms, ms.len()) {
            lemma_body_report_does_not_act(before, h1, f, h, gravity);
            lemma_body_report_does_not_act(
                body_reported(before, h1, f),
                h2,
                f.opposite(),
                h,
                gravity,
            );
        }
    }
}

/// Whether a pair is between two bodies one of which is `h`.
pub open spec fn pair_names<R>(pair: ContactPair<R>, h: RigidBodyHandle) -> bool {
    let (h1, h2) = manifolds_bodies(pair.manifolds@, pair.manifolds@.len());
    h1 is Some && h2 is Some && (h1 == Some(h) || h2 == Some(h))
}

/// A body that is in no pair any more has no reports left, and is otherwise as it was.
pub proof fn lemma_parted_bodies_report_nothing<R: Real>(
    slots: Seq<SlotModel<R>>,
    pairs: Seq<ContactPair<R>>,
    inv_dt: R,
    n: nat,
    h: RigidBodyHandle,
)
    requires
        n <= pairs.len(),
        rigid_body::body_at(slots, h) is Some,
        forall|k: int| 0 <= k < n ==> !pair_names(#[trigger] pairs[k], h),
    ensures
        rigid_body::body_at(
            pairs_reported(reports_cleared(slots), pairs, inv_dt, n),
            h,
        ) == Some(
            BodyModel {
                containers: reports_dropped(rigid_body::body_at(slots, h)->0.containers),
                ..rigid_body::body_at(slots, h)->0
            },
        ),
    decreases n,
{
    if n == 0 {
        assert(reports_cleared(slots)[h.index as int] == place_cleared(slots[h.index as int]));
    } else {
        lemma_parted_bodies_report_nothing(slots, pairs, inv_dt, (n - 1) as nat, h);
        assert(!pair_names(pairs[n - 1], h));
        let before = pairs_reported(reports_cleared(slots), pairs, inv_dt, (n - 1) as nat);
        let ms = pairs[n - 1].manifolds@;
        let f = manifolds_force(ms, inv_dt, ms.len());
        if let (Some(h1), Some(h2)) = manifolds_bodies(ms, ms.len()) {
            assert(h1 != h && h2 != h);
            let first = body_reported(before, h1, f);
            assert(rigid_body::body_at(first, h) == rigid_body::body_at(before, h));
            assert(rigid_body::body_at(body_reported(first, h2, f.opposite()), h)
                == rigid_body::body_at(first, h));
        }
    }
}

} // verus!
