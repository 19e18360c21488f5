//! Granular matter as clouds of particles in contact.
//!
//! Two particles that overlap push each other apart with a damped spring and rub against each
//! other. A grid finds the pairs; every pair is handled once, in a fixed order.
use vstd::prelude::*;
use crate::fixed;
use crate::fixed::Fixed;
use crate::math::Vector;
use crate::scalar::Real;
use crate::spatial_hash;
use crate::spatial_hash::{cell_of, CellGrid, Placed};

verus! {

/// A grain.
#[derive(Clone, Copy, Debug)]
pub struct GranularParticle<R> {
    /// Position.
    pub pos: Vector<R>,
    /// Velocity.
    pub vel: Vector<R>,
    /// Acceleration of the last step.
    pub accel: Vector<R>,
    /// Mass.
    pub mass: R,
    /// Contact radius.
    pub radius: R,
}

impl<R: Real> GranularParticle<R> {
    pub open spec fn spec_new(
        pos: Vector<R>,
        vel: Vector<R>,
        mass: R,
        radius: R,
    ) -> GranularParticle<R> {
        GranularParticle { pos, vel, accel: Vector::zero(), mass, radius }
    }

    /// A grain that has not been through a step.
    #[verifier::when_used_as_spec(spec_new)]
    pub fn new(pos: Vector<R>, vel: Vector<R>, mass: R, radius: R) -> (p: GranularParticle<R>)
        ensures
            p == Self::spec_new(pos, vel, mass, radius),
    {
        GranularParticle { pos, vel, accel: Vector::zero(), mass, radius }
    }
}

/// What the grains are like.
#[derive(Clone, Copy, Debug)]
pub struct GranularParams<R> {
    /// Force per unit of overlap.
    pub normal_stiffness: R,
    /// Force per unit of approach velocity.
    pub normal_damping: R,
    /// The tangential force is at most this share of the normal force.
    pub friction: R,
    /// Tangential force per unit of slide velocity.
    pub tangential_damping: R,
    /// Acceleration of every grain.
    pub gravity: Vector<R>,
}

impl<R: Real> Default for GranularParams<R> {
    fn default() -> (p: GranularParams<R>)
        ensures
            p == (GranularParams {
                normal_stiffness: R::spec_decimal(800, 0),
                normal_damping: R::spec_decimal(5, 1),
                friction: R::spec_decimal(6, 1),
                tangential_damping: R::spec_decimal(4, 1),
                gravity: Vector::<R>::spec_zero(),
            }),
    {
        GranularParams {
            normal_stiffness: R::decimal(800, 0),
            normal_damping: R::decimal(5, 1),
            friction: R::decimal(6, 1),
            tangential_damping: R::decimal(4, 1),
            gravity: Vector::zero(),
        }
    }
}

/// A cloud of grains of one kind.
#[derive(Clone, Debug)]
pub struct GranularWorld<R> {
    /// Grains.
    pub particles: Vec<GranularParticle<R>>,
    /// What the grains are like.
    pub params: GranularParams<R>,
}

/// Whether two grains touch: their distance is below the sum of their radii.
pub open spec fn touching<R: Real>(p: GranularParticle<R>, q: GranularParticle<R>) -> bool {
    let reach = p.radius.add(q.radius);
    !reach.mul(reach).le(p.pos.sub(q.pos).length_squared())
}

pub open spec fn spec_contact_force<R: Real>(
    p: GranularParticle<R>,
    q: GranularParticle<R>,
    params: GranularParams<R>,
) -> Vector<R> {
    let rij = p.pos.sub(q.pos);
    let d = rij.length_squared().max(R::decimal(1, 18)).sqrt();
    let n_hat = rij.div(d);
    let vij = p.vel.sub(q.vel);
    let v_n = vij.dot(n_hat);
    let push = params.normal_stiffness.mul(p.radius.add(q.radius).sub(d)).sub(
        params.normal_damping.mul(v_n),
    ).max(R::zero());
    let slide = vij.sub(n_hat.scale(v_n));
    let v_t = slide.length();
    let rub = if R::decimal(1, 12).lt(v_t) {
        slide.div(v_t).neg().scale(
            params.tangential_damping.mul(v_t).min(params.friction.mul(push)),
        )
    } else {
        Vector::zero()
    };
    n_hat.scale(push).add(rub)
}

/// The force on the first of two touching grains: a push along the line between them that never
/// pulls, and a rub against the slide that is limited by the push.
#[verifier::when_used_as_spec(spec_contact_force)]
pub fn contact_force<R: Real>(
    p: GranularParticle<R>,
    q: GranularParticle<R>,
    params: GranularParams<R>,
) -> (f: Vector<R>)
    ensures
        f == spec_contact_force(p, q, params),
{
    let rij = p.pos.sub(q.pos);
    let d = rij.length_squared().max(R::decimal(1, 18)).sqrt();
    let n_hat = rij.div(d);
    let overlap = p.radius.add(q.radius).sub(d);
    let vij = p.vel.sub(q.vel);
    let v_n = vij.dot(n_hat);
    let push = params.normal_stiffness.mul(overlap).sub(params.normal_damping.mul(v_n)).max(
        R::zero(),
    );
    let slide = vij.sub(n_hat.scale(v_n));
    let v_t = slide.length();
    let rub = if R::decimal(1, 12).lt(v_t) {
        let raw = params.tangential_damping.mul(v_t);
        let cap = params.friction.mul(push);
        slide.div(v_t).neg().scale(raw.min(cap))
    } else {
        Vector::zero()
    };
    n_hat.scale(push).add(rub)
}

/// The largest of zero and the first `n` radii.
pub open spec fn largest_radius<R: Real>(ps: Seq<GranularParticle<R>>, n: nat) -> R
    decreases n,
{
    if n == 0 {
        R::zero()
    } else {
        largest_radius(ps, (n - 1) as nat).max(ps[n - 1].radius)
    }
}

/// The edge length of a cell: twice the largest radius, so that touching grains lie in cells that
/// touch.
pub open spec fn cell_size<R: Real>(ps: Seq<GranularParticle<R>>) -> R {
    R::decimal(2, 0).mul(largest_radius(ps, ps.len()))
}

/// The first `n` grains, each in its cell.
pub open spec fn grain_cells<R: Real>(
    ps: Seq<GranularParticle<R>>,
    size: R,
    n: nat,
) -> Seq<Placed> {
    Seq::new(n, |i: int| Placed { cell: cell_of(ps[i].pos, size), item: i as usize })
}

/// The grains around grain `i`.
pub open spec fn candidates<R: Real>(ps: Seq<GranularParticle<R>>, i: int) -> Seq<usize> {
    spatial_hash::around(
        grain_cells(ps, cell_size(ps), ps.len()),
        cell_of(ps[i].pos, cell_size(ps)),
    )
}

/// Whether grain `i` acts on grain `j`: the second comes after the first, and they touch.
pub open spec fn acts<R: Real>(ps: Seq<GranularParticle<R>>, i: int, j: int) -> bool {
    i < j && touching(ps[i], ps[j])
}

/// The accelerations with the contact of two grains: both get the same force, in opposite
/// directions, divided by their mass.
pub open spec fn with_contact<R: Real>(
    accels: Seq<Vector<R>>,
    ps: Seq<GranularParticle<R>>,
    params: GranularParams<R>,
    i: int,
    j: int,
) -> Seq<Vector<R>> {
    if acts(ps, i, j) {
        let f = contact_force(ps[i], ps[j], params);
        let first = accels.update(i, accels[i].add(f.div(ps[i].mass)));
        first.update(j, first[j].sub(f.div(ps[j].mass)))
    } else {
        accels
    }
}

/// The accelerations with the contacts of grain `i` among the first `n` of `js`.
pub open spec fn with_contacts<R: Real>(
    accels: Seq<Vector<R>>,
    ps: Seq<GranularParticle<R>>,
    params: GranularParams<R>,
    i: int,
    js: Seq<usize>,
    n: nat,
) -> Seq<Vector<R>>
    decreases n,
{
    if n == 0 {
        accels
    } else {
        with_contact(
            with_contacts(accels, ps, params, i, js, (n - 1) as nat),
            ps,
            params,
            i,
            js[n - 1] as int,
        )
    }
}

/// The accelerations from the contacts of the first `n` grains with those around them.
pub open spec fn contact_accels<R: Real>(
    ps: Seq<GranularParticle<R>>,
    params: GranularParams<R>,
    n: nat,
) -> Seq<Vector<R>>
    decreases n,
{
    if n == 0 {
        Seq::new(ps.len(), |i: int| Vector::zero())
    } else {
        let js = candidates(ps, n - 1);
        with_contacts(
            contact_accels(ps, params, (n - 1) as nat),
            ps,
            params,
            n - 1,
            js,
            js.len(),
        )
    }
}

/// A grain after a semi-implicit step.
pub open spec fn advanced<R: Real>(
    p: GranularParticle<R>,
    a: Vector<R>,
    dt: R,
) -> GranularParticle<R> {
    let vel = p.vel.add(a.scale(dt));
    GranularParticle { accel: a, vel, pos: p.pos.add(vel.scale(dt)), ..p }
}

/// The grains after a step.
pub open spec fn stepped<R: Real>(
    ps: Seq<GranularParticle<R>>,
    params: GranularParams<R>,
    dt: R,
) -> Seq<GranularParticle<R>> {
    let accels = contact_accels(ps, params, ps.len());
    Seq::new(ps.len(), |i: int| advanced(ps[i], accels[i].add(params.gravity), dt))
}

/// Every grain has one entry in the grid, under its own number.
pub proof fn lemma_grains_below<R: Real>(ps: Seq<GranularParticle<R>>, size: R)
    requires
        ps.len() <= usize::MAX,
    ensures
        spatial_hash::items_below(grain_cells(ps, size, ps.len()), ps.len()),
        spatial_hash::items_distinct(grain_cells(ps, size, ps.len())),
{
    let entries = grain_cells(ps, size, ps.len());
    assert forall|k: int| 0 <= k < entries.len() implies (#[trigger] entries[k]).item
        < ps.len() by {
        assert(entries[k].item == k);
    }
    assert forall|k: int, m: int| 0 <= k < entries.len() && 0 <= m < entries.len() && k
        != m implies (#[trigger] entries[k]).item != (#[trigger] entries[m]).item by {
        assert(entries[k].item == k && entries[m].item == m);
    }
}

impl<R: Real> GranularWorld<R> {
    /// A cloud without grains.
    pub fn new(params: GranularParams<R>) -> (w: GranularWorld<R>)
        ensures
            w.particles@ == Seq::<GranularParticle<R>>::empty(),
            w.params == params,
    {
        GranularWorld { particles: Vec::new(), params }
    }

    /// The number of grains.
    pub fn len(&self) -> (n: usize)
        ensures
            n == self.particles@.len(),
    {
        self.particles.len()
    }

    /// Whether there are no grains.
    pub fn is_empty(&self) -> (b: bool)
        ensures
            b == (self.particles@.len() == 0),
    {
        self.particles.len() == 0
    }

    /// Adds a grain and returns its position in the list.
    pub fn add_particle(
        &mut self,
        pos: Vector<R>,
        vel: Vector<R>,
        mass: R,
        radius: R,
    ) -> (index: usize)
        ensures
            index == old(self).particles@.len(),
            final(self).particles@ == old(self).particles@.push(
                GranularParticle::spec_new(pos, vel, mass, radius),
            ),
            final(self).params == old(self).params,
    {
        let index: usize = self.particles.len();
        self.particles.push(GranularParticle::new(pos, vel, mass, radius));
        index
    }

    fn cell_edge(&self) -> (size: R)
        ensures
            size == cell_size(self.particles@),
    {
        let mut largest = R::zero();
        let n: usize = self.particles.len();
        for i in 0..n
            invariant
                n == self.particles@.len(),
                largest == largest_radius(self.particles@, i as nat),
        {
            largest = largest.max(self.particles[i].radius);
        }
        R::decimal(2, 0).mul(largest)
    }

    fn grid(&self, size: R) -> (grid: CellGrid)
        ensures
            grid.wf(),
            grid@ == grain_cells(self.particles@, size, self.particles@.len()),
    {
        let mut grid = CellGrid::new();
        let n: usize = self.particles.len();
        for i in 0..n
            invariant
                n == self.particles@.len(),
                grid.wf(),
                grid@ == grain_cells(self.particles@, size, i as nat),
        {
            grid.place(cell_of(self.particles[i].pos, size), i);
        }
        grid
    }

    fn touch(&self, accels: &mut Vec<Vector<R>>, i: usize, js: &Vec<usize>)
        requires
            i < self.particles@.len(),
            old(accels)@.len() == self.particles@.len(),
            forall|k: int| 0 <= k < js@.len() ==> (#[trigger] js@[k]) < self.particles@.len(),
        ensures
            final(accels)@ == with_contacts(
                old(accels)@,
                self.particles@,
                self.params,
                i as int,
                js@,
                js@.len(),
            ),
            final(accels)@.len() == old(accels)@.len(),
    {
        let n: usize = js.len();
        for k in 0..n
            invariant
                n == js@.len(),
                i < self.particles@.len(),
                accels@.len() == self.particles@.len(),
                forall|k: int| 0 <= k < js@.len() ==> (#[trigger] js@[k]) < self.particles@.len(),
                accels@ == with_contacts(
                    old(accels)@,
                    self.particles@,
                    self.params,
                    i as int,
                    js@,
                    k as nat,
                ),
        {
            let j: usize = js[k];
            assert(js@[k as int] < self.particles@.len());
            if j > i {
                let p = self.particles[i];
                let q = self.particles[j];
                let reach = p.radius.add(q.radius);
                if !reach.mul(reach).le(p.pos.sub(q.pos).length_squared()) {
                    let f = contact_force(p, q, self.params);
                    accels[i] = accels[i].add(f.div(p.mass));
                    accels[j] = accels[j].sub(f.div(q.mass));
                }
            }
        }
    }

    fn contacts(&self) -> (accels: Vec<Vector<R>>)
        ensures
            accels@ == contact_accels(self.particles@, self.params, self.particles@.len()),
            accels@.len() == self.particles@.len(),
    {
        let n: usize = self.particles.len();
        let mut accels: Vec<Vector<R>> = Vec::new();
        for i in 0..n
            invariant
                accels@ == Seq::new(i as nat, |k: int| Vector::<R>::zero()),
        {
            accels.push(Vector::zero());
        }
        let size = self.cell_edge();
        let grid = self.grid(size);
        proof {
            lemma_grains_below(self.particles@, size);
        }
        for i in 0..n
            invariant
                n == self.particles@.len(),
                n == accels@.len(),
                size == cell_size(self.particles@),
                grid.wf(),
                grid@ == grain_cells(self.particles@, size, n as nat),
                spatial_hash::items_below(grid@, n as nat),
                accels@ == contact_accels(self.particles@, self.params, i as nat),
        {
            let cell = cell_of(self.particles[i].pos, size);
            let js = grid.items_around(cell);
            proof {
                spatial_hash::lemma_around_below(grid@, cell, n as nat);
            }
            self.touch(&mut accels, i, &js);
        }
        accels
    }

    /// Advances the grains by `dt`: contact forces over all pairs, then gravity, then velocities
    /// and positions.
    pub fn step(&mut self, dt: R)
        ensures
            final(self).particles@ == stepped(old(self).particles@, old(self).params, dt),
            final(self).params == old(self).params,
    {
        let n: usize = self.particles.len();
        let gravity = self.params.gravity;
        let accels = self.contacts();
        let ghost before = self.particles@;
        let ghost params = self.params;
        let ghost after = stepped(before, params, dt);
        for i in 0..n
            invariant
                n == self.particles@.len(),
                n == before.len(),
                n == accels@.len(),
                self.params == params,
                gravity == params.gravity,
                accels@ == contact_accels(before, params, n as nat),
                after == stepped(before, params, dt),
                forall|k: int| 0 <= k < i ==> #[trigger] self.particles@[k] == after[k],
                forall|k: int| i <= k < n ==> #[trigger] self.particles@[k] == before[k],
        {
            let mut p = self.particles[i];
            p.accel = accels[i].add(gravity);
            p.vel = p.vel.add(p.accel.scale(dt));
            p.pos = p.pos.add(p.vel.scale(dt));
            self.particles[i] = p;
        }
        assert(self.particles@ =~= after);
    }
}

/// A grain is found around another one exactly if their cells touch, and then once: so every pair
/// of grains is handled at most once in a step, from the grain with the lower number.
pub proof fn lemma_candidates_are_cell_neighbours<R: Real>(
    ps: Seq<GranularParticle<R>>,
    i: int,
    j: int,
)
    requires
        ps.len() <= usize::MAX,
        0 <= i < ps.len(),
        0 <= j < ps.len(),
    ensures
        candidates(ps, i).no_duplicates(),
        candidates(ps, i).contains(j as usize) <==> exists|k: usize|
            k < spatial_hash::BLOCK && cell_of(ps[j].pos, cell_size(ps)) == (
            #[trigger] cell_of(ps[i].pos, cell_size(ps)).spec_neighbour(k)),
{
    let size = cell_size(ps);
    let entries = grain_cells(ps, size, ps.len());
    let center = cell_of(ps[i].pos, size);
    lemma_grains_below(ps, size);
    spatial_hash::lemma_around_is_distinct(entries, center);
    spatial_hash::lemma_around_is_complete(entries, center, j as usize);
    if exists|k: usize|
        k < spatial_hash::BLOCK && cell_of(ps[j].pos, size) == (#[trigger] center.spec_neighbour(
            k,
        )) {
        let k = choose|k: usize|
            k < spatial_hash::BLOCK && cell_of(ps[j].pos, size) == (
            #[trigger] center.spec_neighbour(k));
        assert(entries[j] == (Placed { cell: center.spec_neighbour(k), item: j as usize }));
    }
    if candidates(ps, i).contains(j as usize) {
        let (k, m) = choose|k: usize, m: int|
            k < spatial_hash::BLOCK && 0 <= m < entries.len() && #[trigger] entries[m] == (Placed {
                cell: #[trigger] center.spec_neighbour(k),
                item: j as usize,
            });
        assert(entries[m].item == m);
        assert(cell_of(ps[j].pos, size) == center.spec_neighbour(k));
    }
}

proof fn lemma_largest_radius(ps: Seq<GranularParticle<Fixed>>, n: nat, i: int)
    requires
        0 <= i < n <= ps.len(),
    ensures
        0 <= largest_radius(ps, n).raw,
        ps[i].radius.raw <= largest_radius(ps, n).raw,
    decreases n,
{
    reveal_with_fuel(largest_radius, 2);
    if i < n - 1 {
        lemma_largest_radius(ps, (n - 1) as nat, i);
    } else if n > 1 {
        lemma_largest_radius(ps, (n - 1) as nat, 0);
    }
}

/// Of two grains that touch, each is found around the other: no contact is missed.
pub proof fn lemma_touching_grains_are_found(ps: Seq<GranularParticle<Fixed>>, i: int, j: int)
    requires
        ps.len() <= usize::MAX,
        0 <= i < ps.len(),
        0 <= j < ps.len(),
        ps[i].radius.raw >= 0,
        ps[j].radius.raw >= 0,
        touching(ps[i], ps[j]),
    ensures
        candidates(ps, i).contains(j as usize),
        candidates(ps, j).contains(i as usize),
{
    let size = cell_size(ps);
    let largest = largest_radius(ps, ps.len());
    let reach = ps[i].radius.add(ps[j].radius);
    let entries = grain_cells(ps, size, ps.len());
    lemma_largest_radius(ps, ps.len(), i);
    lemma_largest_radius(ps, ps.len(), j);
    let doubled = 2 * fixed::UNIT as nat;
    assert(fixed::pow10(0) == 1);
    assert(fixed::magnitude(2) * fixed::UNIT as nat == doubled);
    assert(fixed::decimal_steps(2, 0) == doubled);
    let raw = largest.raw as int;
    assert(raw >= 0);
    assert(doubled * (raw as nat) == (2 * raw) * fixed::UNIT) by (nonlinear_arith)
        requires
            doubled == 2 * fixed::UNIT as nat,
            raw >= 0,
    ;
    vstd::arithmetic::div_mod::lemma_div_multiples_vanish(2 * largest.raw, fixed::UNIT as int);
    assert(size.raw == fixed::saturated(2 * largest.raw));
    assert(reach.raw <= size.raw);
    spatial_hash::lemma_near_points_are_within(ps[i].pos, ps[j].pos, reach);
    spatial_hash::lemma_close_items_are_found(entries, ps[i].pos, ps[j].pos, size, j);
    spatial_hash::lemma_close_items_are_found(entries, ps[j].pos, ps[i].pos, size, i);
}

/// A step adds and removes no grain, and changes no mass and no radius.
pub proof fn lemma_step_keeps_grains<R: Real>(
    ps: Seq<GranularParticle<R>>,
    params: GranularParams<R>,
    dt: R,
)
    ensures
        stepped(ps, params, dt).len() == ps.len(),
        forall|i: int|
            0 <= i < ps.len() ==> (#[trigger] stepped(ps, params, dt)[i]).mass == ps[i].mass
                && stepped(ps, params, dt)[i].radius == ps[i].radius,
{
}

/// No grain acts on grain `i`, and it acts on none.
spec fn alone<R: Real>(ps: Seq<GranularParticle<R>>, i: int) -> bool {
    forall|j: int|
        #![trigger ps[j]]
        0 <= j < ps.len() ==> !acts(ps, i, j) && !acts(ps, j, i)
}

proof fn lemma_untouched<R: Real>(
    accels: Seq<Vector<R>>,
    ps: Seq<GranularParticle<R>>,
    params: GranularParams<R>,
    i: int,
    js: Seq<usize>,
    n: nat,
    lone: int,
)
    requires
        0 <= lone < ps.len(),
        0 <= i < ps.len(),
        accels.len() == ps.len(),
        n <= js.len(),
        forall|k: int| 0 <= k < js.len() ==> (#[trigger] js[k]) < ps.len(),
        alone(ps, lone),
    ensures
        with_contacts(accels, ps, params, i, js, n).len() == ps.len(),
        with_contacts(accels, ps, params, i, js, n)[lone] == accels[lone],
    decreases n,
{
    if n > 0 {
        lemma_untouched(accels, ps, params, i, js, (n - 1) as nat, lone);
        let j = js[n - 1] as int;
        assert(ps[i] == ps[i] && ps[j] == ps[j]);
    }
}

proof fn lemma_all_untouched<R: Real>(
    ps: Seq<GranularParticle<R>>,
    params: GranularParams<R>,
    n: nat,
    lone: int,
)
    requires
        ps.len() <= usize::MAX,
        n <= ps.len(),
        0 <= lone < ps.len(),
        alone(ps, lone),
    ensures
        contact_accels(ps, params, n).len() == ps.len(),
        contact_accels(ps, params, n)[lone] == Vector::<R>::spec_zero(),
    decreases n,
{
    if n > 0 {
        lemma_all_untouched(ps, params, (n - 1) as nat, lone);
        let size = cell_size(ps);
        lemma_grains_below(ps, size);
        spatial_hash::lemma_around_below(
            grain_cells(ps, size, ps.len()),
            cell_of(ps[n - 1].pos, size),
            ps.len(),
        );
        let js = candidates(ps, n - 1);
        lemma_untouched(
            contact_accels(ps, params, (n - 1) as nat),
            ps,
            params,
            n - 1,
            js,
            js.len(),
            lone,
        );
    }
}

/// A grain that touches no other one falls freely.
pub proof fn lemma_lone_grain_falls<R: Real>(
    ps: Seq<GranularParticle<R>>,
    params: GranularParams<R>,
    dt: R,
    i: int,
)
    requires
        ps.len() <= usize::MAX,
        0 <= i < ps.len(),
        forall|j: int|
            0 <= j < ps.len() && j != i ==> !touching(ps[i], #[trigger] ps[j]) && !touching(
                ps[j],
                ps[i],
            ),
    ensures
        stepped(ps, params, dt)[i].accel == Vector::<R>::spec_zero().add(params.gravity),
{
    assert(alone(ps, i));
    lemma_all_untouched(ps, params, ps.len(), i);
}

/// The grains after `n` steps.
pub open spec fn run<R: Real>(
    ps: Seq<GranularParticle<R>>,
    params: GranularParams<R>,
    dt: R,
    n: nat,
) -> Seq<GranularParticle<R>>
    decreases n,
{
    if n == 0 {
        ps
    } else {
        stepped(run(ps, params, dt, (n - 1) as nat), params, dt)
    }
}

/// Two runs of the same length from one state end in one state, to the last bit.
pub proof fn lemma_runs_agree<R: Real>(
    ps: Seq<GranularParticle<R>>,
    qs: Seq<GranularParticle<R>>,
    params: GranularParams<R>,
    dt: R,
    n: nat,
)
    requires
        ps == qs,
    ensures
        run(ps, params, dt, n) == run(qs, params, dt, n),
{
}

} // verus!
