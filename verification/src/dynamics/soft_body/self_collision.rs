//! Repulsion between the particles of one body.
use vstd::prelude::*;
use crate::dynamics::soft_body::constraints;
use crate::dynamics::soft_body::constraints::solve_distance_constraint;
use crate::dynamics::soft_body::model::{
    DistanceConstraint, SelfCollisionParams, SoftBody, SoftParticle, SoftState,
};
use crate::scalar::Real;
use crate::spatial_hash;
use crate::spatial_hash::{cell_of, CellGrid, Placed};

verus! {

/// Whether an edge joins two particles, in either order.
pub open spec fn joins<R>(c: DistanceConstraint<R>, i: int, j: int) -> bool {
    (c.a == i && c.b == j) || (c.a == j && c.b == i)
}

/// Whether some edge joins two particles.
pub open spec fn linked<R>(edges: Seq<DistanceConstraint<R>>, i: int, j: int) -> bool {
    exists|k: int| 0 <= k < edges.len() && #[trigger] joins(edges[k], i, j)
}

/// The reciprocal masses as the solver sees them.
pub open spec fn weights<R: Real>(ps: Seq<SoftParticle<R>>) -> Seq<R> {
    Seq::new(ps.len(), |i: int| ps[i].weight())
}

/// The free ones among the first `n` particles, each in its cell.
pub open spec fn free_cells<R: Real>(ps: Seq<SoftParticle<R>>, size: R, n: nat) -> Seq<Placed>
    decreases n,
{
    if n == 0 {
        Seq::empty()
    } else {
        let before = free_cells(ps, size, (n - 1) as nat);
        if ps[n - 1].is_free() {
            before.push(Placed { cell: cell_of(ps[n - 1].pos, size), item: (n - 1) as usize })
        } else {
            before
        }
    }
}

/// Particles while they are being pushed apart, and the pairs that touched.
#[verifier::ext_equal]
pub ghost struct Pushed<R> {
    /// The particles.
    pub particles: Seq<SoftParticle<R>>,
    /// The pairs that were closer than allowed, lower particle first.
    pub contacts: Seq<(usize, usize)>,
}

/// What stays the same while the particles of a body are pushed apart.
pub ghost struct Repulsion<R> {
    /// The edges of the body.
    pub edges: Seq<DistanceConstraint<R>>,
    /// The free particles in their cells.
    pub entries: Seq<Placed>,
    /// The distance that two particles keep.
    pub d: R,
    /// Compliance.
    pub alpha: R,
    /// The reciprocal masses as the solver sees them.
    pub w: Seq<R>,
}

impl<R: Real> Repulsion<R> {
    /// One pair: it is pushed apart if the second particle comes after the first, no edge joins
    /// them, and they are closer than the distance to keep.
    pub open spec fn pair(self, s: Pushed<R>, i: int, j: int) -> Pushed<R> {
        if j > i && !linked(self.edges, i, j) && s.particles[i].pos.sub(
            s.particles[j].pos,
        ).length().lt(self.d) {
            Pushed {
                particles: constraints::distance_projected(
                    s.particles,
                    i,
                    j,
                    self.d,
                    self.alpha,
                    self.w,
                    R::zero(),
                ).particles,
                contacts: s.contacts.push((i as usize, j as usize)),
            }
        } else {
            s
        }
    }

    /// One particle against the first `n` of the candidates `js`.
    pub open spec fn against(self, s: Pushed<R>, i: int, js: Seq<usize>, n: nat) -> Pushed<R>
        decreases n,
    {
        if n == 0 {
            s
        } else {
            self.pair(self.against(s, i, js, (n - 1) as nat), i, js[n - 1] as int)
        }
    }

    /// One particle against those around its cell. A particle at the end of the range of cells
    /// has no block around it.
    pub open spec fn particle(self, s: Pushed<R>, i: int) -> Pushed<R> {
        let cell = cell_of(s.particles[i].pos, self.d);
        if !s.particles[i].is_free() || cell.at_limit() {
            s
        } else {
            let js = spatial_hash::around(self.entries, cell);
            self.against(s, i, js, js.len())
        }
    }

    /// The first `n` particles.
    pub open spec fn all(self, s: Pushed<R>, n: nat) -> Pushed<R>
        decreases n,
    {
        if n == 0 {
            s
        } else {
            self.particle(self.all(s, (n - 1) as nat), n - 1)
        }
    }
}

impl<R: Real> SoftState<R> {
    /// What one pass of repulsion does: free particles closer than twice the radius are pushed
    /// apart, unless an edge joins them.
    pub open spec fn self_collided(self, alpha: R) -> Pushed<R> {
        match self.self_collision {
            Some(p) => {
                let d = p.radius.mul(R::decimal(2, 0));
                let n = self.particles.len();
                Repulsion {
                    edges: self.distance_constraints,
                    entries: free_cells(self.particles, d, n),
                    d,
                    alpha,
                    w: weights(self.particles),
                }.all(Pushed { particles: self.particles, contacts: Seq::empty() }, n)
            },
            None => Pushed { particles: self.particles, contacts: Seq::empty() },
        }
    }
}

/// For every particle, those that an edge joins it to.
spec fn partners_ok<R>(
    partners: Seq<Vec<usize>>,
    edges: Seq<DistanceConstraint<R>>,
    n: nat,
) -> bool {
    &&& partners.len() == n
    &&& forall|i: int, j: usize|
        0 <= i < n && j < n ==> (#[trigger] partners[i]@.contains(j) <==> linked(
            edges,
            i,
            j as int,
        ))
}

fn partner_lists<R: Real>(edges: &Vec<DistanceConstraint<R>>, n: usize) -> (partners: Vec<
    Vec<usize>,
>)
    ensures
        partners_ok(partners@, edges@, n as nat),
{
    let mut partners: Vec<Vec<usize>> = Vec::new();
    for i in 0..n
        invariant
            partners@.len() == i,
            forall|k: int| 0 <= k < i ==> (#[trigger] partners@[k])@.len() == 0,
    {
        partners.push(Vec::new());
    }
    let count: usize = edges.len();
    proof {
        assert(edges@.take(0).len() == 0);
    }
    for k in 0..count
        invariant
            count == edges@.len(),
            partners_ok(partners@, edges@.take(k as int), n as nat),
    {
        let a: usize = edges[k].a;
        let b: usize = edges[k].b;
        let ghost before = partners@;
        let ghost seen = edges@.take(k as int);
        let ghost more = edges@.take(k + 1);
        if a < n && b < n {
            partners[a].push(b);
            partners[b].push(a);
        }
        assert forall|i: int, j: usize| 0 <= i < n && j < n implies (
            #[trigger] partners@[i]@.contains(j) <==> linked(more, i, j as int)) by {
            lemma_linked_next(edges@, k as int, i, j as int);
            assert(before[i]@.contains(j) <==> linked(seen, i, j as int));
            if a < n && b < n {
                lemma_partner_pushed(before, partners@, a, b, i, j);
            }
        }
    }
    assert(edges@.take(count as int) == edges@);
    partners
}

proof fn lemma_linked_next<R>(edges: Seq<DistanceConstraint<R>>, k: int, i: int, j: int)
    requires
        0 <= k < edges.len(),
    ensures
        linked(edges.take(k + 1), i, j) <==> linked(edges.take(k), i, j) || joins(edges[k], i, j),
{
    let seen = edges.take(k);
    let more = edges.take(k + 1);
    if linked(more, i, j) {
        let m = choose|m: int| 0 <= m < more.len() && #[trigger] joins(more[m], i, j);
        if m < k {
            assert(joins(seen[m], i, j));
        }
    }
    if linked(seen, i, j) {
        let m = choose|m: int| 0 <= m < seen.len() && #[trigger] joins(seen[m], i, j);
        assert(joins(more[m], i, j));
    }
    if joins(edges[k], i, j) {
        assert(joins(more[k], i, j));
    }
}

proof fn lemma_partner_pushed(
    before: Seq<Vec<usize>>,
    after: Seq<Vec<usize>>,
    a: usize,
    b: usize,
    i: int,
    j: usize,
)
    requires
        a < before.len(),
        b < before.len(),
        after.len() == before.len(),
        0 <= i < before.len(),
        i != a && i != b ==> after[i] == before[i],
        a != b && i == a ==> after[i]@ == before[i]@.push(b),
        a != b && i == b ==> after[i]@ == before[i]@.push(a),
        a == b && i == a ==> after[i]@ == before[i]@.push(b).push(a),
    ensures
        after[i]@.contains(j) <==> before[i]@.contains(j) || (i == a && j == b) || (i == b && j
            == a),
{
    let s = before[i]@;
    let t = after[i]@;
    if s.contains(j) {
        let m = choose|m: int| 0 <= m < s.len() && s[m] == j;
        assert(t[m] == j);
    }
    if i == a && j == b {
        assert(t[s.len() as int] == j);
    }
    if i == b && j == a {
        assert(t[t.len() - 1] == j);
    }
    if t.contains(j) {
        let m = choose|m: int| 0 <= m < t.len() && t[m] == j;
        if m < s.len() {
            assert(s[m] == j);
        }
    }
}

fn is_in(list: &Vec<usize>, x: usize) -> (found: bool)
    ensures
        found == list@.contains(x),
{
    let n: usize = list.len();
    for i in 0..n
        invariant
            n == list@.len(),
            forall|k: int| 0 <= k < i ==> list@[k] != x,
    {
        if list[i] == x {
            assert(list@.contains(x));
            return true;
        }
    }
    false
}

/// Fills a grid with the free particles.
fn free_grid<R: Real>(ps: &Vec<SoftParticle<R>>, size: R) -> (grid: CellGrid)
    ensures
        grid.wf(),
        grid@ == free_cells(ps@, size, ps@.len()),
{
    let mut grid = CellGrid::new();
    let n: usize = ps.len();
    for i in 0..n
        invariant
            n == ps@.len(),
            grid.wf(),
            grid@ == free_cells(ps@, size, i as nat),
    {
        let p = ps[i];
        if p.is_free() {
            grid.place(cell_of(p.pos, size), i);
        }
    }
    grid
}

proof fn lemma_free_items<R: Real>(ps: Seq<SoftParticle<R>>, size: R, n: nat)
    requires
        n <= ps.len(),
        n <= usize::MAX,
    ensures
        spatial_hash::items_below(free_cells(ps, size, n), n),
    decreases n,
{
    if n > 0 {
        lemma_free_items(ps, size, (n - 1) as nat);
        let before = free_cells(ps, size, (n - 1) as nat);
        assert(spatial_hash::items_below(before, n));
    }
}

/// The reciprocal masses as the solver sees them.
pub fn weights_of<R: Real>(ps: &Vec<SoftParticle<R>>) -> (w: Vec<R>)
    ensures
        w@ == weights(ps@),
{
    let mut w: Vec<R> = Vec::new();
    let n: usize = ps.len();
    for i in 0..n
        invariant
            n == ps@.len(),
            w@ == weights(ps@).take(i as int),
    {
        w.push(ps[i].weight());
        assert(weights(ps@).take(i + 1) == weights(ps@).take(i as int).push(
            weights(ps@)[i as int],
        ));
    }
    assert(weights(ps@).take(n as int) == weights(ps@));
    w
}

fn push_pair<R: Real>(
    ps: &mut Vec<SoftParticle<R>>,
    contacts: &mut Vec<(usize, usize)>,
    i: usize,
    j: usize,
    partners: &Vec<usize>,
    rep: Ghost<Repulsion<R>>,
    d: R,
    alpha: R,
    w: &Vec<R>,
)
    requires
        i < old(ps)@.len(),
        j < old(ps)@.len(),
        w@.len() == old(ps)@.len(),
        partners@.contains(j) <==> linked(rep@.edges, i as int, j as int),
        rep@.d == d,
        rep@.alpha == alpha,
        rep@.w == w@,
        constraints::contacts_valid(old(contacts)@, old(ps)@.len()),
    ensures
        (Pushed { particles: final(ps)@, contacts: final(contacts)@ }) == rep@.pair(
            Pushed { particles: old(ps)@, contacts: old(contacts)@ },
            i as int,
            j as int,
        ),
        final(ps)@.len() == old(ps)@.len(),
        constraints::contacts_valid(final(contacts)@, old(ps)@.len()),
{
    if j > i && !is_in(partners, j) && ps[i].pos.sub(ps[j].pos).length().lt(d) {
        let mut lambda = R::zero();
        solve_distance_constraint(ps, i, j, d, alpha, w, &mut lambda);
        contacts.push((i, j));
    }
}

fn push_particle<R: Real>(
    ps: &mut Vec<SoftParticle<R>>,
    contacts: &mut Vec<(usize, usize)>,
    i: usize,
    js: &Vec<usize>,
    partners: &Vec<usize>,
    rep: Ghost<Repulsion<R>>,
    d: R,
    alpha: R,
    w: &Vec<R>,
)
    requires
        i < old(ps)@.len(),
        forall|k: int| 0 <= k < js@.len() ==> (#[trigger] js@[k]) < old(ps)@.len(),
        w@.len() == old(ps)@.len(),
        forall|j: usize|
            j < old(ps)@.len() ==> (#[trigger] partners@.contains(j) <==> linked(
                rep@.edges,
                i as int,
                j as int,
            )),
        rep@.d == d,
        rep@.alpha == alpha,
        rep@.w == w@,
        constraints::contacts_valid(old(contacts)@, old(ps)@.len()),
    ensures
        (Pushed { particles: final(ps)@, contacts: final(contacts)@ }) == rep@.against(
            Pushed { particles: old(ps)@, contacts: old(contacts)@ },
            i as int,
            js@,
            js@.len(),
        ),
        final(ps)@.len() == old(ps)@.len(),
        constraints::contacts_valid(final(contacts)@, old(ps)@.len()),
{
    let n: usize = js.len();
    let ghost start = Pushed { particles: ps@, contacts: contacts@ };
    for k in 0..n
        invariant
            n == js@.len(),
            i < ps@.len(),
            ps@.len() == start.particles.len(),
            w@.len() == ps@.len(),
            forall|k: int| 0 <= k < js@.len() ==> (#[trigger] js@[k]) < ps@.len(),
            forall|j: usize|
                j < ps@.len() ==> (#[trigger] partners@.contains(j) <==> linked(
                    rep@.edges,
                    i as int,
                    j as int,
                )),
            rep@.d == d,
            rep@.alpha == alpha,
            rep@.w == w@,
            constraints::contacts_valid(contacts@, ps@.len()),
            (Pushed { particles: ps@, contacts: contacts@ }) == rep@.against(
                start,
                i as int,
                js@,
                k as nat,
            ),
    {
        let j: usize = js[k];
        assert(js@[k as int] < ps@.len());
        assert(partners@.contains(j) <==> linked(rep@.edges, i as int, j as int));
        push_pair(ps, contacts, i, j, partners, rep, d, alpha, w);
    }
}

impl<R: Real> SoftBody<R> {
    /// Pushes free particles apart that are closer than twice the radius and that no edge joins.
    /// Returns the pairs that were. `alpha` is the compliance of the repulsion divided by the
    /// square of the time step.
    pub fn solve_self_collisions(&mut self, alpha: R) -> (contacts: Vec<(usize, usize)>)
        ensures
            final(self)@ == (SoftState {
                particles: old(self)@.self_collided(alpha).particles,
                ..old(self)@
            }),
            contacts@ == old(self)@.self_collided(alpha).contacts,
            final(self)@.particles.len() == old(self)@.particles.len(),
            constraints::contacts_valid(contacts@, old(self)@.particles.len()),
    {
        let mut contacts: Vec<(usize, usize)> = Vec::new();
        let params: SelfCollisionParams<R> = match self.self_collision {
            Some(p) => p,
            None => {
                return contacts;
            },
        };
        let d = params.radius.mul(R::decimal(2, 0));
        let n: usize = self.particles.len();
        let w = weights_of(&self.particles);
        let partners = partner_lists(&self.distance_constraints, n);
        let grid = free_grid(&self.particles, d);
        let ghost before = self@;
        let ghost rep = Repulsion {
            edges: before.distance_constraints,
            entries: free_cells(before.particles, d, n as nat),
            d,
            alpha,
            w: weights(before.particles),
        };
        let ghost start = Pushed { particles: before.particles, contacts: Seq::empty() };
        proof {
            lemma_free_items(before.particles, d, n as nat);
        }
        for i in 0..n
            invariant
                n == self.particles@.len(),
                n == before.particles.len(),
                self@ == (SoftState { particles: self.particles@, ..before }),
                w@ == weights(before.particles),
                partners_ok(partners@, before.distance_constraints, n as nat),
                grid.wf(),
                grid@ == rep.entries,
                spatial_hash::items_below(rep.entries, n as nat),
                rep.edges == before.distance_constraints,
                rep.d == d,
                rep.alpha == alpha,
                rep.w == w@,
                constraints::contacts_valid(contacts@, n as nat),
                (Pushed { particles: self.particles@, contacts: contacts@ }) == rep.all(
                    start,
                    i as nat,
                ),
        {
            let p = self.particles[i];
            let cell = cell_of(p.pos, d);
            if p.is_free() && !cell.at_limit() {
                let js = grid.items_around(cell);
                proof {
                    spatial_hash::lemma_around_below(rep.entries, cell, n as nat);
                }
                assert forall|j: usize| j < n implies (
                #[trigger] partners@[i as int]@.contains(j) <==> linked(
                    rep.edges,
                    i as int,
                    j as int,
                )) by {}
                push_particle(
                    &mut self.particles,
                    &mut contacts,
                    i,
                    &js,
                    &partners[i],
                    Ghost(rep),
                    d,
                    alpha,
                    &w,
                );
            }
        }
        contacts
    }
}

} // verus!
