//! What holds of every soft body, whatever happens to it.
use vstd::prelude::*;
use crate::dynamics::soft_body::between;
use crate::dynamics::soft_body::bodies;
use crate::dynamics::soft_body::constraints;
use crate::dynamics::soft_body::forces;
use crate::dynamics::soft_body::model;
use crate::dynamics::soft_body::self_collision;
use crate::dynamics::soft_body::solver;
use crate::dynamics::soft_body::step;
use crate::dynamics::soft_body::topology;
use crate::scalar::Real;
use crate::sequences;
use crate::spatial_hash;

verus! {

/// The same particles, of which those that are pinned or anchored have not moved.
pub open spec fn steady<R: Real>(
    ps: Seq<model::SoftParticle<R>>,
    qs: Seq<model::SoftParticle<R>>,
) -> bool {
    &&& model::same_particles(ps, qs)
    &&& forall|i: int|
        #![trigger ps[i]]
        #![trigger qs[i]]
        0 <= i < ps.len() && !ps[i].is_free() ==> qs[i].pos == ps[i].pos && qs[i].vel == ps[i].vel
}

/// All contacts are between two free ones of the particles, lower number first.
pub open spec fn contacts_free<R: Real>(
    contacts: Seq<(usize, usize)>,
    ps: Seq<model::SoftParticle<R>>,
) -> bool {
    forall|k: int|
        0 <= k < contacts.len() ==> {
            &&& (#[trigger] contacts[k]).0 < contacts[k].1
            &&& contacts[k].1 < ps.len()
            &&& ps[contacts[k].0 as int].is_free()
            &&& ps[contacts[k].1 as int].is_free()
        }
}

proof fn lemma_steady_transitive<R: Real>(
    ps: Seq<model::SoftParticle<R>>,
    qs: Seq<model::SoftParticle<R>>,
    rs: Seq<model::SoftParticle<R>>,
)
    requires
        steady(ps, qs),
        steady(qs, rs),
    ensures
        steady(ps, rs),
{
    assert forall|i: int| 0 <= i < ps.len() implies ps[i].inv_mass == (#[trigger] rs[i]).inv_mass
        && ps[i].bound_body == rs[i].bound_body && ps[i].bound_local == rs[i].bound_local && (
    !ps[i].is_free() ==> rs[i].pos == ps[i].pos && rs[i].vel == ps[i].vel) by {
        assert(qs[i].inv_mass == ps[i].inv_mass);
    }
}

/// Moving a free particle keeps the others where they are.
proof fn lemma_free_moved<R: Real>(
    start: Seq<model::SoftParticle<R>>,
    ps: Seq<model::SoftParticle<R>>,
    i: int,
    p: model::SoftParticle<R>,
)
    requires
        steady(start, ps),
        0 <= i < ps.len(),
        start[i].is_free(),
        p.inv_mass == ps[i].inv_mass,
        p.bound_body == ps[i].bound_body,
        p.bound_local == ps[i].bound_local,
    ensures
        steady(start, ps.update(i, p)),
{
    let qs = ps.update(i, p);
    assert forall|k: int| 0 <= k < start.len() implies start[k].inv_mass == (
    #[trigger] qs[k]).inv_mass && start[k].bound_body == qs[k].bound_body && start[k].bound_local
        == qs[k].bound_local && (!start[k].is_free() ==> qs[k].pos == start[k].pos && qs[k].vel
        == start[k].vel) by {
        assert(ps[k].inv_mass == start[k].inv_mass);
    }
}

proof fn lemma_distance_steady<R: Real>(
    start: Seq<model::SoftParticle<R>>,
    ps: Seq<model::SoftParticle<R>>,
    a: int,
    b: int,
    rest: R,
    alpha: R,
    lambda: R,
)
    requires
        steady(start, ps),
        0 <= a < ps.len(),
        0 <= b < ps.len(),
    ensures
        steady(
            start,
            constraints::distance_projected(
                ps,
                a,
                b,
                rest,
                alpha,
                self_collision::weights(start),
                lambda,
            ).particles,
        ),
{
    let w = self_collision::weights(start);
    assert(w[a] == start[a].weight());
    assert(w[b] == start[b].weight());
    let delta = ps[a].pos.sub(ps[b].pos);
    let len = delta.length();
    let w_sum = w[a].add(w[b]);
    let n = delta.div(len);
    let d_lambda = len.sub(rest).neg().sub(alpha.mul(lambda)).div(w_sum.add(alpha));
    let first = if w[a].equals(R::zero()) {
        ps
    } else {
        model::moved(ps, a, n.scale(w[a].mul(d_lambda)))
    };
    if !w[a].equals(R::zero()) {
        lemma_free_moved(start, ps, a, first[a]);
    }
    if !w[b].equals(R::zero()) {
        let v = n.scale(w[b].mul(d_lambda));
        lemma_free_moved(
            start,
            first,
            b,
            model::SoftParticle { pos: first[b].pos.sub(v), ..first[b] },
        );
    }
}

proof fn lemma_nudged_steady<R: Real>(
    start: Seq<model::SoftParticle<R>>,
    ps: Seq<model::SoftParticle<R>>,
    i: int,
    g: crate::math::Vector<R>,
    d: R,
)
    requires
        steady(start, ps),
        0 <= i < ps.len(),
    ensures
        steady(start, constraints::nudged(ps, i, g, self_collision::weights(start)[i], d)),
{
    let w = self_collision::weights(start);
    assert(w[i] == start[i].weight());
    if !w[i].equals(R::zero()) {
        let v = g.scale(w[i].mul(d));
        lemma_free_moved(
            start,
            ps,
            i,
            model::SoftParticle { pos: ps[i].pos.add(v), ..ps[i] },
        );
    }
}

proof fn lemma_volume_steady<R: Real>(
    start: Seq<model::SoftParticle<R>>,
    ps: Seq<model::SoftParticle<R>>,
    t: [u32; 4],
    rest: R,
    alpha: R,
    lambda: R,
)
    requires
        steady(start, ps),
        model::tetra_valid(t, ps.len()),
    ensures
        steady(
            start,
            constraints::volume_projected(
                ps,
                t,
                rest,
                alpha,
                self_collision::weights(start),
                lambda,
            ).particles,
        ),
{
    let w = self_collision::weights(start);
    let p0 = ps[t[0] as int].pos;
    let e1 = ps[t[1] as int].pos.sub(p0);
    let e2 = ps[t[2] as int].pos.sub(p0);
    let e3 = ps[t[3] as int].pos.sub(p0);
    let g0 = constraints::volume_gradient(e1, e2, e3, 0);
    let g1 = constraints::volume_gradient(e1, e2, e3, 1);
    let g2 = constraints::volume_gradient(e1, e2, e3, 2);
    let g3 = constraints::volume_gradient(e1, e2, e3, 3);
    let w0 = w[t[0] as int];
    let w1 = w[t[1] as int];
    let w2 = w[t[2] as int];
    let w3 = w[t[3] as int];
    let denom = alpha.add(w0.mul(g0.dot(g0))).add(w1.mul(g1.dot(g1))).add(w2.mul(g2.dot(g2))).add(
        w3.mul(g3.dot(g3)),
    );
    let off = e1.cross(e2).dot(e3).div(R::decimal(6, 0)).sub(rest);
    let d = off.neg().sub(alpha.mul(lambda)).div(denom);
    let q0 = constraints::nudged(ps, t[0] as int, g0, w0, d);
    lemma_nudged_steady(start, ps, t[0] as int, g0, d);
    let q1 = constraints::nudged(q0, t[1] as int, g1, w1, d);
    lemma_nudged_steady(start, q0, t[1] as int, g1, d);
    let q2 = constraints::nudged(q1, t[2] as int, g2, w2, d);
    lemma_nudged_steady(start, q1, t[2] as int, g2, d);
    lemma_nudged_steady(start, q2, t[3] as int, g3, d);
}

proof fn lemma_edges_steady<R: Real>(
    start: Seq<model::SoftParticle<R>>,
    s: solver::Sweep<R>,
    edges: Seq<model::DistanceConstraint<R>>,
    dt: R,
    n: nat,
)
    requires
        steady(start, s.particles),
        n <= edges.len(),
        forall|i: int|
            0 <= i < edges.len() ==> model::edge_valid(#[trigger] edges[i], start.len()),
    ensures
        steady(
            start,
            solver::edges_swept(s, edges, self_collision::weights(start), dt, n).particles,
        ),
        solver::edges_swept(s, edges, self_collision::weights(start), dt, n).contacts
            == s.contacts,
    decreases n,
{
    if n > 0 {
        lemma_edges_steady(start, s, edges, dt, (n - 1) as nat);
        let w = self_collision::weights(start);
        let p = solver::edges_swept(s, edges, w, dt, (n - 1) as nat);
        let c = edges[n - 1];
        assert(model::edge_valid(c, start.len()));
        let len = p.particles[c.a as int].pos.sub(p.particles[c.b as int].pos).length();
        lemma_distance_steady(
            start,
            p.particles,
            c.a as int,
            c.b as int,
            c.rest,
            solver::edge_alpha(c, len, dt),
            p.edge_lambdas[n - 1],
        );
    }
}

proof fn lemma_volumes_steady<R: Real>(
    start: Seq<model::SoftParticle<R>>,
    s: solver::Sweep<R>,
    tets: Seq<[u32; 4]>,
    rests: Seq<R>,
    alpha: R,
    n: nat,
)
    requires
        steady(start, s.particles),
        n <= tets.len(),
        forall|i: int| 0 <= i < tets.len() ==> model::tetra_valid(#[trigger] tets[i], start.len()),
    ensures
        steady(
            start,
            solver::volumes_swept(
                s,
                tets,
                rests,
                alpha,
                self_collision::weights(start),
                n,
            ).particles,
        ),
        solver::volumes_swept(s, tets, rests, alpha, self_collision::weights(start), n).contacts
            == s.contacts,
    decreases n,
{
    if n > 0 {
        lemma_volumes_steady(start, s, tets, rests, alpha, (n - 1) as nat);
        let w = self_collision::weights(start);
        let p = solver::volumes_swept(s, tets, rests, alpha, w, (n - 1) as nat);
        assert(model::tetra_valid(tets[n - 1], start.len()));
        lemma_volume_steady(
            start,
            p.particles,
            tets[n - 1],
            rests[n - 1],
            alpha,
            p.volume_lambdas[n - 1],
        );
    }
}

/// Contacts of the particles below `i`, or of particle `i` itself with one of `seen`; none twice.
spec fn orderly(contacts: Seq<(usize, usize)>, i: int, seen: Seq<usize>) -> bool {
    &&& contacts.no_duplicates()
    &&& forall|k: int|
        0 <= k < contacts.len() ==> (#[trigger] contacts[k]).0 < i || (contacts[k].0 == i
            && seen.contains(contacts[k].1))
}

/// No contact is between particles that an edge joins.
pub open spec fn contacts_unlinked<R>(
    contacts: Seq<(usize, usize)>,
    edges: Seq<model::DistanceConstraint<R>>,
) -> bool {
    forall|k: int|
        0 <= k < contacts.len() ==> !self_collision::linked(
            edges,
            (#[trigger] contacts[k]).0 as int,
            contacts[k].1 as int,
        )
}

/// Every item is the number of a free particle.
spec fn items_free<R: Real>(
    entries: Seq<spatial_hash::Placed>,
    ps: Seq<model::SoftParticle<R>>,
) -> bool {
    forall|k: int|
        0 <= k < entries.len() ==> (#[trigger] entries[k]).item < ps.len()
            && ps[entries[k].item as int].is_free()
}

proof fn lemma_free_cells<R: Real>(ps: Seq<model::SoftParticle<R>>, size: R, n: nat)
    requires
        n <= ps.len() <= usize::MAX,
    ensures
        items_free(self_collision::free_cells(ps, size, n), ps),
        spatial_hash::items_distinct(self_collision::free_cells(ps, size, n)),
        spatial_hash::items_below(self_collision::free_cells(ps, size, n), n),
    decreases n,
{
    if n > 0 {
        lemma_free_cells(ps, size, (n - 1) as nat);
        let before = self_collision::free_cells(ps, size, (n - 1) as nat);
        let after = self_collision::free_cells(ps, size, n);
        assert(spatial_hash::items_below(before, (n - 1) as nat));
        assert forall|k: int| 0 <= k < after.len() implies (#[trigger] after[k]).item < ps.len()
            && ps[after[k].item as int].is_free() by {
            if k < before.len() {
                assert(after[k] == before[k]);
            }
        }
    }
}

proof fn lemma_around_free<R: Real>(
    entries: Seq<spatial_hash::Placed>,
    ps: Seq<model::SoftParticle<R>>,
    cell: spatial_hash::Cell,
)
    requires
        items_free(entries, ps),
    ensures
        forall|k: int|
            0 <= k < spatial_hash::around(entries, cell).len() ==> (#[trigger] spatial_hash::around(
                entries,
                cell,
            )[k]) < ps.len() && ps[spatial_hash::around(entries, cell)[k] as int].is_free(),
{
    let js = spatial_hash::around(entries, cell);
    assert forall|k: int| 0 <= k < js.len() implies (#[trigger] js[k]) < ps.len()
        && ps[js[k] as int].is_free() by {
        assert(js.contains(js[k]));
        spatial_hash::lemma_around_is_complete(entries, cell, js[k]);
    }
}

proof fn lemma_against<R: Real>(
    rep: self_collision::Repulsion<R>,
    start: Seq<model::SoftParticle<R>>,
    s: self_collision::Pushed<R>,
    i: int,
    js: Seq<usize>,
    n: nat,
)
    requires
        rep.w == self_collision::weights(start),
        start.len() <= usize::MAX,
        steady(start, s.particles),
        contacts_free(s.contacts, start),
        contacts_unlinked(s.contacts, rep.edges),
        orderly(s.contacts, i, Seq::empty()),
        0 <= i < start.len(),
        start[i].is_free(),
        js.no_duplicates(),
        n <= js.len(),
        forall|k: int|
            0 <= k < js.len() ==> (#[trigger] js[k]) < start.len() && start[js[k] as int].is_free(),
    ensures
        steady(start, rep.against(s, i, js, n).particles),
        contacts_free(rep.against(s, i, js, n).contacts, start),
        contacts_unlinked(rep.against(s, i, js, n).contacts, rep.edges),
        orderly(rep.against(s, i, js, n).contacts, i, js.take(n as int)),
    decreases n,
{
    if n == 0 {
        assert(js.take(0) =~= Seq::<usize>::empty());
    } else {
        lemma_against(rep, start, s, i, js, (n - 1) as nat);
        let p = rep.against(s, i, js, (n - 1) as nat);
        let q = rep.against(s, i, js, n);
        let j = js[n - 1] as int;
        let old_seen = js.take(n - 1);
        let seen = js.take(n as int);
        lemma_distance_steady(start, p.particles, i, j, rep.d, rep.alpha, R::zero());
        assert(seen[n - 1] == js[n - 1]);
        assert(!old_seen.contains(js[n - 1])) by {
            if old_seen.contains(js[n - 1]) {
                let m = choose|m: int| 0 <= m < old_seen.len() && old_seen[m] == js[n - 1];
                assert(js[m] == js[n - 1]);
            }
        }
        assert forall|x: usize| old_seen.contains(x) implies seen.contains(x) by {
            let m = choose|m: int| 0 <= m < old_seen.len() && old_seen[m] == x;
            assert(seen[m] == x);
        }
        if q.contacts.len() > p.contacts.len() {
            assert(q.contacts == p.contacts.push((i as usize, j as usize)));
            assert(seen.contains(j as usize));
            assert forall|k: int| 0 <= k < q.contacts.len() implies {
                &&& (#[trigger] q.contacts[k]).0 < q.contacts[k].1
                &&& q.contacts[k].1 < start.len()
                &&& start[q.contacts[k].0 as int].is_free()
                &&& start[q.contacts[k].1 as int].is_free()
                &&& (q.contacts[k].0 < i || (q.contacts[k].0 == i && seen.contains(
                    q.contacts[k].1,
                )))
                &&& !self_collision::linked(
                    rep.edges,
                    q.contacts[k].0 as int,
                    q.contacts[k].1 as int,
                )
            } by {
                if k < p.contacts.len() {
                    assert(q.contacts[k] == p.contacts[k]);
                }
            }
            assert forall|k: int, m: int|
                0 <= k < q.contacts.len() && 0 <= m < q.contacts.len() && k
                    != m implies q.contacts[k] != q.contacts[m] by {
                if k < p.contacts.len() && m < p.contacts.len() {
                    assert(p.contacts[k] != p.contacts[m]);
                } else if k < p.contacts.len() {
                    assert(q.contacts[k] == p.contacts[k]);
                } else {
                    assert(q.contacts[m] == p.contacts[m]);
                }
            }
        }
    }
}

proof fn lemma_orderly_next(contacts: Seq<(usize, usize)>, i: int, seen: Seq<usize>)
    requires
        orderly(contacts, i, seen),
    ensures
        orderly(contacts, i + 1, Seq::empty()),
{
}

proof fn lemma_repulsion<R: Real>(
    rep: self_collision::Repulsion<R>,
    start: Seq<model::SoftParticle<R>>,
    n: nat,
)
    requires
        rep.w == self_collision::weights(start),
        start.len() <= usize::MAX,
        n <= start.len(),
        items_free(rep.entries, start),
        spatial_hash::items_distinct(rep.entries),
    ensures
        ({
            let q = rep.all(
                self_collision::Pushed { particles: start, contacts: Seq::empty() },
                n,
            );
            &&& steady(start, q.particles)
            &&& contacts_free(q.contacts, start)
            &&& contacts_unlinked(q.contacts, rep.edges)
            &&& orderly(q.contacts, n as int, Seq::empty())
        }),
    decreases n,
{
    let s = self_collision::Pushed { particles: start, contacts: Seq::empty() };
    if n > 0 {
        lemma_repulsion(rep, start, (n - 1) as nat);
        let p = rep.all(s, (n - 1) as nat);
        let i = n - 1;
        let cell = spatial_hash::cell_of(p.particles[i].pos, rep.d);
        assert(p.particles[i].is_free() == start[i].is_free());
        if p.particles[i].is_free() && !cell.at_limit() {
            let js = spatial_hash::around(rep.entries, cell);
            lemma_around_free(rep.entries, start, cell);
            spatial_hash::lemma_around_is_distinct(rep.entries, cell);
            lemma_against(rep, start, p, i, js, js.len());
            lemma_orderly_next(
                rep.against(p, i, js, js.len()).contacts,
                i,
                js.take(js.len() as int),
            );
        } else {
            lemma_orderly_next(p.contacts, i, Seq::empty());
        }
    }
}

/// In one pass of repulsion no pair of particles is pushed apart twice, only free particles are
/// pushed, none that an edge joins to the other, and pinned or anchored ones stay.
pub proof fn lemma_self_collisions_are_pairs<R: Real>(s: model::SoftState<R>, alpha: R)
    requires
        s.particles.len() <= usize::MAX,
    ensures
        steady(s.particles, s.self_collided(alpha).particles),
        s.self_collided(alpha).contacts.no_duplicates(),
        contacts_free(s.self_collided(alpha).contacts, s.particles),
        contacts_unlinked(s.self_collided(alpha).contacts, s.distance_constraints),
{
    if let Some(p) = s.self_collision {
        let d = p.radius.mul(R::decimal(2, 0));
        let n = s.particles.len();
        lemma_free_cells(s.particles, d, n);
        let rep = self_collision::Repulsion {
            edges: s.distance_constraints,
            entries: self_collision::free_cells(s.particles, d, n),
            d,
            alpha,
            w: self_collision::weights(s.particles),
        };
        lemma_repulsion(rep, s.particles, n);
    }
}

proof fn lemma_contacts_free_same<R: Real>(
    contacts: Seq<(usize, usize)>,
    more: Seq<(usize, usize)>,
    ps: Seq<model::SoftParticle<R>>,
    qs: Seq<model::SoftParticle<R>>,
)
    requires
        model::same_particles(ps, qs),
        contacts_free(contacts, ps),
        contacts_free(more, qs),
    ensures
        contacts_free(contacts + more, ps),
{
    let all = contacts + more;
    assert forall|k: int| 0 <= k < all.len() implies {
        &&& (#[trigger] all[k]).0 < all[k].1
        &&& all[k].1 < ps.len()
        &&& ps[all[k].0 as int].is_free()
        &&& ps[all[k].1 as int].is_free()
    } by {
        if k < contacts.len() {
            assert(all[k] == contacts[k]);
        } else {
            assert(all[k] == more[k - contacts.len()]);
        }
    }
}

proof fn lemma_friction_steady<R: Real>(
    start: Seq<model::SoftParticle<R>>,
    ps: Seq<model::SoftParticle<R>>,
    contacts: Seq<(usize, usize)>,
    mu: R,
    n: nat,
)
    requires
        steady(start, ps),
        contacts_free(contacts, start),
        n <= contacts.len(),
    ensures
        steady(start, constraints::friction_applied(ps, contacts, mu, n)),
    decreases n,
{
    if n > 0 {
        lemma_friction_steady(start, ps, contacts, mu, (n - 1) as nat);
        let before = constraints::friction_applied(ps, contacts, mu, (n - 1) as nat);
        let after = constraints::friction_applied(ps, contacts, mu, n);
        let i = contacts[n - 1].0 as int;
        let j = contacts[n - 1].1 as int;
        assert(start[i].is_free() && start[j].is_free());
        if let Some(corr) = constraints::slip(before[i], before[j], mu) {
            let p = constraints::slowed(before[i], before[j], corr);
            let q = constraints::dragged(before[i], before[j], corr);
            lemma_free_moved(start, before, i, p);
            lemma_free_moved(start, before.update(i, p), j, q);
        }
    }
}

proof fn lemma_rubbed_steady<R: Real>(
    s: model::SoftState<R>,
    start: Seq<model::SoftParticle<R>>,
    ps: Seq<model::SoftParticle<R>>,
    contacts: Seq<(usize, usize)>,
)
    requires
        steady(start, ps),
        contacts_free(contacts, start),
    ensures
        steady(start, s.rubbed(ps, contacts)),
{
    if let Some(mu) = s.contact_friction() {
        lemma_friction_steady(start, ps, contacts, mu, contacts.len());
    }
}

proof fn lemma_projected_steady<R: Real>(s: model::SoftState<R>, dt: R, n: nat)
    requires
        s.projectable(),
        s.particles.len() <= usize::MAX,
    ensures
        steady(s.particles, s.projected(dt, n).particles),
        contacts_free(s.projected(dt, n).contacts, s.particles),
    decreases n,
{
    let start = s.particles;
    if n == 0 {
        assert(steady(start, s.predicted(dt)));
    } else {
        lemma_projected_steady(s, dt, (n - 1) as nat);
        let p = s.projected(dt, (n - 1) as nat);
        let w = self_collision::weights(start);
        let e = solver::edges_swept(
            p,
            s.distance_constraints,
            w,
            dt,
            s.distance_constraints.len(),
        );
        lemma_edges_steady(start, p, s.distance_constraints, dt, s.distance_constraints.len());
        let v = solver::volumes_swept(
            e,
            s.tetrahedra,
            s.tetra_rest_volumes,
            s.volume_alpha(dt),
            w,
            s.tetrahedra.len(),
        );
        lemma_volumes_steady(
            start,
            e,
            s.tetrahedra,
            s.tetra_rest_volumes,
            s.volume_alpha(dt),
            s.tetrahedra.len(),
        );
        let here = s.with_particles(v.particles);
        lemma_self_collisions_are_pairs(here, s.contact_alpha(dt));
        let c = here.self_collided(s.contact_alpha(dt));
        lemma_steady_transitive(start, v.particles, c.particles);
        lemma_contacts_free_same(v.contacts, c.contacts, start, v.particles);
    }
}

/// One substep of the position solver leaves pinned and anchored particles where they are, and
/// changes nothing about a particle but its place, velocity and force.
pub proof fn lemma_xpbd_steady<R: Real>(s: model::SoftState<R>, dt: R)
    requires
        s.ready(),
        s.particles.len() <= usize::MAX,
    ensures
        steady(s.particles, s.xpbd_stepped(dt).particles),
        s.xpbd_stepped(dt) == s.with_particles(s.xpbd_stepped(dt).particles),
{
    if let model::SoftSolver::Xpbd { iterations, compliance } = s.solver {
        if !s.sleeping && iterations != 0 {
            lemma_projected_steady(s, dt, iterations as nat);
            let p = s.projected(dt, iterations as nat);
            let keep = R::one().sub(s.damping);
            let moving = Seq::new(
                s.particles.len(),
                |i: int| solver::recovered(p.particles[i], s.particles[i].pos, keep, dt),
            );
            assert forall|i: int| 0 <= i < moving.len() implies p.particles[i].is_free()
                == s.particles[i].is_free() && (#[trigger] moving[i]).inv_mass
                == p.particles[i].inv_mass && moving[i].bound_body == p.particles[i].bound_body
                && moving[i].bound_local == p.particles[i].bound_local && (
            !s.particles[i].is_free() ==> moving[i] == p.particles[i]) by {}
            assert(steady(s.particles, moving));
            lemma_rubbed_steady(s, s.particles, moving, p.contacts);
        }
    }
}

proof fn lemma_pushed_apart_steady<R: Real>(s: model::SoftState<R>, alpha: R, n: nat)
    requires
        s.particles.len() <= usize::MAX,
    ensures
        steady(s.particles, s.pushed_apart(alpha, n).particles),
        contacts_free(s.pushed_apart(alpha, n).contacts, s.particles),
    decreases n,
{
    if n > 0 {
        lemma_pushed_apart_steady(s, alpha, (n - 1) as nat);
        let before = s.pushed_apart(alpha, (n - 1) as nat);
        let here = s.with_particles(before.particles);
        lemma_self_collisions_are_pairs(here, alpha);
        let c = here.self_collided(alpha);
        lemma_steady_transitive(s.particles, before.particles, c.particles);
        lemma_contacts_free_same(before.contacts, c.contacts, s.particles, before.particles);
    }
}

/// One substep of the mass-spring solver leaves pinned and anchored particles where they are, and
/// changes nothing about a particle but its place, velocity and force.
pub proof fn lemma_mass_spring_steady<R: Real>(s: model::SoftState<R>, dt: R)
    requires
        s.particles.len() <= usize::MAX,
    ensures
        steady(s.particles, s.mass_spring_stepped(dt).particles),
        s.mass_spring_stepped(dt) == s.with_particles(s.mass_spring_stepped(dt).particles),
{
    if !s.sleeping {
        let pulled = s.forces_computed();
        assert(steady(s.particles, pulled.particles));
        let moved = pulled.integrated(dt);
        assert(steady(pulled.particles, moved.particles));
        lemma_steady_transitive(s.particles, pulled.particles, moved.particles);
        if let Some(p) = s.self_collision {
            let alpha = p.stiffness.div(dt.mul(dt));
            let passes = solver::MASS_SPRING_PASSES as nat;
            lemma_pushed_apart_steady(moved, alpha, passes);
            let pushed = moved.pushed_apart(alpha, passes);
            lemma_rubbed_steady(moved, moved.particles, pushed.particles, pushed.contacts);
            lemma_steady_transitive(
                s.particles,
                moved.particles,
                moved.rubbed(pushed.particles, pushed.contacts),
            );
        }
    }
}

proof fn lemma_substeps_steady<R: Real>(s: model::SoftState<R>, dt: R, n: nat)
    requires
        s.ready(),
        s.particles.len() <= usize::MAX,
    ensures
        steady(s.particles, s.substeps_taken(dt, n).particles),
        s.substeps_taken(dt, n) == s.with_particles(s.substeps_taken(dt, n).particles),
    decreases n,
{
    if n > 0 {
        lemma_substeps_steady(s, dt, (n - 1) as nat);
        let p = s.substeps_taken(dt, (n - 1) as nat);
        assert(p.ready());
        lemma_xpbd_steady(p, dt);
        lemma_mass_spring_steady(p, dt);
        lemma_steady_transitive(s.particles, p.particles, p.substepped(dt).particles);
    }
}

/// A step leaves pinned and anchored particles where they are. It adds and removes no particle,
/// and changes nothing about one but its place, velocity and force.
pub proof fn lemma_step_steady<R: Real>(s: model::SoftState<R>, dt: R)
    requires
        s.can_step(),
        s.particles.len() <= usize::MAX,
    ensures
        steady(s.particles, s.stepped(dt).particles),
{
    if !s.sleeping && !s.collide {
        step::lemma_deformed_ready(s.torn());
        let edited = s.torn().deformed();
        lemma_substeps_steady(edited, dt.div(R::from_usize(s.parts())), s.parts() as nat);
    }
}

/// A step of a sleeping body changes nothing.
pub proof fn lemma_sleeping_body_stays<R: Real>(s: model::SoftState<R>, dt: R)
    requires
        s.sleeping,
    ensures
        s.stepped(dt) == s,
        s.xpbd_stepped(dt) == s,
        s.mass_spring_stepped(dt) == s,
{
}

/// A step of a body that is moved from outside moves no particle.
pub proof fn lemma_driven_body_keeps_particles<R: Real>(s: model::SoftState<R>, dt: R)
    requires
        s.collide,
    ensures
        s.stepped(dt).particles == s.particles,
{
}

/// A body with neither a tear strain nor plasticity keeps all its edges, springs, volume
/// elements and faces in a step; nothing changes but the particles.
pub proof fn lemma_elastic_step_moves_particles_only<R: Real>(s: model::SoftState<R>, dt: R)
    requires
        s.can_step(),
        s.particles.len() <= usize::MAX,
        s.tear_strain is None,
        s.plasticity is None,
    ensures
        s.stepped(dt) == s.with_particles(s.stepped(dt).particles),
{
    if !s.sleeping && !s.collide {
        lemma_substeps_steady(s, dt.div(R::from_usize(s.parts())), s.parts() as nat);
    }
}

/// The states after `n` steps.
pub open spec fn run<R: Real>(s: model::SoftState<R>, dt: R, n: nat) -> model::SoftState<R>
    decreases n,
{
    if n == 0 {
        s
    } else {
        run(s, dt, (n - 1) as nat).stepped(dt)
    }
}

/// Two runs of the same length from one state end in one state, to the last bit.
pub proof fn lemma_runs_agree<R: Real>(
    s: model::SoftState<R>,
    t: model::SoftState<R>,
    dt: R,
    n: nat,
)
    requires
        s == t,
    ensures
        run(s, dt, n) == run(t, dt, n),
{
}

/// Without damping a free particle keeps all of the velocity that its force gives it.
pub proof fn lemma_no_damping_keeps_velocity<R: Real>(p: model::SoftParticle<R>, dt: R)
    requires
        p.is_free(),
    ensures
        forces::advanced(p, R::one().sub(R::zero()), dt).vel == p.vel.add(
            p.force.scale(dt.mul(p.inv_mass)),
        ),
{
    R::law_nothing_taken();
}

/// Tearing leaves exactly the edges and springs that hold: each that is left holds, and none
/// that held is gone.
pub proof fn lemma_torn_is_exact<R: Real>(s: model::SoftState<R>, limit: R)
    requires
        s.tear_strain == Some(limit),
    ensures
        forall|i: int|
            0 <= i < s.torn().distance_constraints.len() ==> {
                let c = #[trigger] s.torn().distance_constraints[i];
                topology::holds(s.particles, c.a, c.b, c.rest, limit)
            },
        forall|i: int|
            0 <= i < s.torn().springs.len() ==> {
                let p = #[trigger] s.torn().springs[i];
                topology::holds(s.particles, p.a, p.b, p.rest_length, limit)
            },
        forall|c: model::DistanceConstraint<R>|
            s.distance_constraints.contains(c) && topology::holds(
                s.particles,
                c.a,
                c.b,
                c.rest,
                limit,
            ) ==> #[trigger] s.torn().distance_constraints.contains(c),
        forall|p: model::Spring<R>|
            s.springs.contains(p) && topology::holds(s.particles, p.a, p.b, p.rest_length, limit)
                ==> #[trigger] s.torn().springs.contains(p),
{
    let edges = topology::holding_edges(s.particles, limit);
    let springs = topology::holding_springs(s.particles, limit);
    assert forall|i: int| 0 <= i < s.torn().distance_constraints.len() implies {
        let c = #[trigger] s.torn().distance_constraints[i];
        topology::holds(s.particles, c.a, c.b, c.rest, limit)
    } by {
        sequences::lemma_filter_from(s.distance_constraints, edges, i);
    }
    assert forall|i: int| 0 <= i < s.torn().springs.len() implies {
        let p = #[trigger] s.torn().springs[i];
        topology::holds(s.particles, p.a, p.b, p.rest_length, limit)
    } by {
        sequences::lemma_filter_from(s.springs, springs, i);
    }
    assert forall|c: model::DistanceConstraint<R>|
        s.distance_constraints.contains(c) && topology::holds(
            s.particles,
            c.a,
            c.b,
            c.rest,
            limit,
        ) implies #[trigger] s.torn().distance_constraints.contains(c) by {
        let k = choose|k: int|
            0 <= k < s.distance_constraints.len() && s.distance_constraints[k] == c;
        s.distance_constraints.lemma_filter_contains(edges, k);
    }
    assert forall|p: model::Spring<R>|
        s.springs.contains(p) && topology::holds(
            s.particles,
            p.a,
            p.b,
            p.rest_length,
            limit,
        ) implies #[trigger] s.torn().springs.contains(p) by {
        let k = choose|k: int| 0 <= k < s.springs.len() && s.springs[k] == p;
        s.springs.lemma_filter_contains(springs, k);
    }
}

/// A body that has torn does not tear again where it stands.
pub proof fn lemma_tearing_twice<R: Real>(s: model::SoftState<R>)
    ensures
        s.torn().torn() == s.torn(),
{
    if let Some(limit) = s.tear_strain {
        let t = s.torn();
        sequences::lemma_filter_twice(
            s.distance_constraints,
            topology::holding_edges(s.particles, limit),
        );
        sequences::lemma_filter_twice(
            s.springs,
            topology::holding_springs(s.particles, limit),
        );
        sequences::lemma_filter_twice(
            s.triangles,
            topology::whole_faces(t.distance_constraints, t.springs),
        );
    }
}

/// Removing a body leaves every other id as it was, and its own id free of a body for good:
/// adding another body does not give that id away.
pub proof fn lemma_ids_are_stable<R>(
    s: Seq<Option<model::SoftState<R>>>,
    id: model::SoftBodyId,
    other: model::SoftBodyId,
    body: model::SoftState<R>,
)
    requires
        id.0 < s.len() <= u32::MAX,
        other.0 < s.len(),
        id != other,
    ensures
        bodies::soft_at(s.update(id.0 as int, None), other) == bodies::soft_at(s, other),
        bodies::soft_at(s.update(id.0 as int, None), id) is None,
        bodies::soft_at(s.push(Some(body)), other) == bodies::soft_at(s, other),
        bodies::soft_at(s.update(id.0 as int, None).push(Some(body)), id) is None,
{
}

/// Going through the bodies finds exactly those that are there, in ascending order.
pub proof fn lemma_live_ids<R>(s: Seq<Option<model::SoftState<R>>>, n: nat)
    requires
        n <= s.len() <= u32::MAX + 1,
    ensures
        bodies::live_ids(s, n).len() == bodies::live_count(s, n),
        forall|i: int, j: int|
            0 <= i < j < bodies::live_ids(s, n).len() ==> bodies::live_ids(s, n)[i]
                < bodies::live_ids(s, n)[j],
        forall|x: u32|
            #![trigger bodies::live_ids(s, n).contains(x)]
            bodies::live_ids(s, n).contains(x) <==> x < n && s[x as int] is Some,
    decreases n,
{
    let ids = bodies::live_ids(s, n);
    if n > 0 {
        let before = bodies::live_ids(s, (n - 1) as nat);
        lemma_live_ids(s, (n - 1) as nat);
        assert forall|i: int| 0 <= i < before.len() implies before[i] < n - 1 by {
            assert(before.contains(before[i]));
        }
        assert forall|x: u32| #![trigger ids.contains(x)]
            ids.contains(x) <==> x < n && s[x as int] is Some by {
            if ids.contains(x) {
                let k = choose|k: int| 0 <= k < ids.len() && ids[k] == x;
                if k < before.len() {
                    assert(before[k] == x);
                    assert(before.contains(x));
                }
            }
            if x < n && s[x as int] is Some {
                if x < n - 1 {
                    assert(before.contains(x));
                    let k = choose|k: int| 0 <= k < before.len() && before[k] == x;
                    assert(ids[k] == x);
                } else {
                    assert(ids[ids.len() - 1] == x);
                }
            }
        }
    }
}

/// Whether a body takes part in what acts between bodies.
pub open spec fn takes_part<R>(kind: between::Meeting, s: model::SoftState<R>) -> bool {
    match kind {
        between::Meeting::Collision => s.cross_collision is Some,
        between::Meeting::Cohesion => s.cohesion is Some,
    }
}

/// The same bodies, of which those that take no part are as they were, and the others have moved
/// at most.
pub open spec fn bystanders_kept<R: Real>(
    kind: between::Meeting,
    s: Seq<Option<model::SoftState<R>>>,
    t: Seq<Option<model::SoftState<R>>>,
) -> bool {
    &&& s.len() == t.len()
    &&& forall|k: int|
        #![trigger s[k]]
        #![trigger t[k]]
        0 <= k < s.len() ==> match s[k] {
            Some(b) => {
                &&& t[k] matches Some(c)
                &&& c == b.with_particles(c.particles)
                &&& !takes_part(kind, b) ==> c == b
            },
            None => t[k] is None,
        }
}

proof fn lemma_row_bystanders<R: Real>(
    kind: between::Meeting,
    s: Seq<Option<model::SoftState<R>>>,
    i: nat,
    dt: R,
    n: nat,
)
    requires
        i < s.len(),
        n <= s.len(),
    ensures
        bystanders_kept(kind, s, kind.row(s, i, dt, n)),
    decreases n,
{
    if n > i + 1 {
        lemma_row_bystanders(kind, s, i, dt, (n - 1) as nat);
        let p = kind.row(s, i, dt, (n - 1) as nat);
        let q = kind.row(s, i, dt, n);
        assert(s[i as int] is Some <==> p[i as int] is Some);
        assert(s[n - 1] is Some <==> p[n - 1] is Some);
        assert forall|k: int| 0 <= k < s.len() implies match s[k] {
            Some(b) => {
                &&& (#[trigger] q[k]) matches Some(c)
                &&& c == b.with_particles(c.particles)
                &&& !takes_part(kind, b) ==> c == b
            },
            None => q[k] is None,
        } by {
            assert(p[k] is Some <==> s[k] is Some);
        }
    }
}

proof fn lemma_bystanders_transitive<R: Real>(
    kind: between::Meeting,
    s: Seq<Option<model::SoftState<R>>>,
    t: Seq<Option<model::SoftState<R>>>,
    u: Seq<Option<model::SoftState<R>>>,
)
    requires
        bystanders_kept(kind, s, t),
        bystanders_kept(kind, t, u),
    ensures
        bystanders_kept(kind, s, u),
{
    assert forall|k: int| 0 <= k < s.len() implies match s[k] {
        Some(b) => {
            &&& (#[trigger] u[k]) matches Some(c)
            &&& c == b.with_particles(c.particles)
            &&& !takes_part(kind, b) ==> c == b
        },
        None => u[k] is None,
    } by {
        assert(t[k] is Some <==> s[k] is Some);
    }
}

proof fn lemma_pass_bystanders<R: Real>(
    kind: between::Meeting,
    s: Seq<Option<model::SoftState<R>>>,
    dt: R,
    n: nat,
)
    requires
        n <= s.len(),
    ensures
        bystanders_kept(kind, s, kind.pass(s, dt, n)),
    decreases n,
{
    if n > 0 {
        lemma_pass_bystanders(kind, s, dt, (n - 1) as nat);
        let p = kind.pass(s, dt, (n - 1) as nat);
        lemma_row_bystanders(kind, p, (n - 1) as nat, dt, s.len());
        lemma_bystanders_transitive(kind, s, p, kind.pass(s, dt, n));
    }
}

/// Collisions and cohesion between bodies add and remove no body, leave those alone that have
/// not set them, and change nothing but the particles of the others.
pub proof fn lemma_bystanders_are_left_alone<R: Real>(
    kind: between::Meeting,
    s: Seq<Option<model::SoftState<R>>>,
    dt: R,
    k: nat,
)
    ensures
        bystanders_kept(kind, s, kind.passes(s, dt, k)),
    decreases k,
{
    if k > 0 {
        lemma_bystanders_are_left_alone(kind, s, dt, (k - 1) as nat);
        let p = kind.passes(s, dt, (k - 1) as nat);
        lemma_pass_bystanders(kind, p, dt, s.len());
        lemma_bystanders_transitive(kind, s, p, kind.passes(s, dt, k));
    }
}

/// The same particles, of which pinned ones are as they were.
pub open spec fn pinned_kept<R: Real>(
    ps: Seq<model::SoftParticle<R>>,
    qs: Seq<model::SoftParticle<R>>,
) -> bool {
    &&& model::same_particles(ps, qs)
    &&& forall|i: int|
        #![trigger ps[i]]
        #![trigger qs[i]]
        0 <= i < ps.len() && ps[i].is_pinned() ==> qs[i] == ps[i]
}

/// Every pair is of movable particles.
pub open spec fn pairs_movable<R: Real>(
    pairs: Seq<(usize, usize)>,
    a: Seq<model::SoftParticle<R>>,
    b: Seq<model::SoftParticle<R>>,
) -> bool {
    forall|k: int|
        0 <= k < pairs.len() ==> (#[trigger] pairs[k]).0 < a.len() && pairs[k].1 < b.len()
            && !a[pairs[k].0 as int].is_pinned() && !b[pairs[k].1 as int].is_pinned()
}

/// Every item is the number of a movable particle.
spec fn items_movable<R: Real>(
    entries: Seq<spatial_hash::Placed>,
    ps: Seq<model::SoftParticle<R>>,
) -> bool {
    forall|k: int|
        0 <= k < entries.len() ==> (#[trigger] entries[k]).item < ps.len()
            && !ps[entries[k].item as int].is_pinned()
}

proof fn lemma_movable_cells<R: Real>(ps: Seq<model::SoftParticle<R>>, size: R, n: nat)
    requires
        n <= ps.len() <= usize::MAX,
    ensures
        items_movable(between::movable_cells(ps, size, n), ps),
    decreases n,
{
    if n > 0 {
        lemma_movable_cells(ps, size, (n - 1) as nat);
        let before = between::movable_cells(ps, size, (n - 1) as nat);
        let after = between::movable_cells(ps, size, n);
        assert forall|k: int| 0 <= k < after.len() implies (#[trigger] after[k]).item < ps.len()
            && !ps[after[k].item as int].is_pinned() by {
            if k < before.len() {
                assert(after[k] == before[k]);
            }
        }
    }
}

proof fn lemma_found_by_movable<R: Real>(
    a: Seq<model::SoftParticle<R>>,
    b: Seq<model::SoftParticle<R>>,
    i: int,
    js: Seq<usize>,
    rule: between::PairRule<R>,
    n: nat,
)
    requires
        0 <= i < a.len() <= usize::MAX,
        !a[i].is_pinned(),
        n <= js.len(),
        forall|k: int|
            0 <= k < js.len() ==> (#[trigger] js[k]) < b.len() && !b[js[k] as int].is_pinned(),
    ensures
        pairs_movable(between::found_by(a, b, i, js, rule, n), a, b),
    decreases n,
{
    if n > 0 {
        lemma_found_by_movable(a, b, i, js, rule, (n - 1) as nat);
        let before = between::found_by(a, b, i, js, rule, (n - 1) as nat);
        assert(js[n - 1] < b.len());
        assert(pairs_movable(before.push((i as usize, js[n - 1])), a, b));
    }
}

/// What is found between two bodies are pairs of movable particles, one of each body.
pub proof fn lemma_found_movable<R: Real>(
    a: Seq<model::SoftParticle<R>>,
    b: Seq<model::SoftParticle<R>>,
    rule: between::PairRule<R>,
    n: nat,
)
    requires
        n <= a.len() <= usize::MAX,
        b.len() <= usize::MAX,
    ensures
        pairs_movable(between::found(a, b, rule, n), a, b),
    decreases n,
{
    if n > 0 {
        lemma_found_movable(a, b, rule, (n - 1) as nat);
        let before = between::found(a, b, rule, (n - 1) as nat);
        if !a[n - 1].is_pinned() {
            let entries = between::movable_cells(b, rule.reach, b.len());
            let cell = spatial_hash::cell_of(a[n - 1].pos, rule.reach);
            let js = spatial_hash::around(entries, cell);
            lemma_movable_cells(b, rule.reach, b.len());
            assert forall|k: int| 0 <= k < js.len() implies (#[trigger] js[k]) < b.len()
                && !b[js[k] as int].is_pinned() by {
                assert(js.contains(js[k]));
                spatial_hash::lemma_around_is_complete(entries, cell, js[k]);
            }
            lemma_found_by_movable(a, b, n - 1, js, rule, js.len());
            let more = between::found_by(a, b, n - 1, js, rule, js.len());
            let all = before + more;
            assert forall|k: int| 0 <= k < all.len() implies (#[trigger] all[k]).0 < a.len()
                && all[k].1 < b.len() && !a[all[k].0 as int].is_pinned()
                && !b[all[k].1 as int].is_pinned() by {
                if k < before.len() {
                    assert(all[k] == before[k]);
                } else {
                    assert(all[k] == more[k - before.len()]);
                }
            }
        }
    }
}

proof fn lemma_pairs_pinned_kept<R: Real>(
    s: between::Two<R>,
    pairs: Seq<(usize, usize)>,
    rule: between::PairRule<R>,
    n: nat,
)
    requires
        n <= pairs.len(),
        pairs_movable(pairs, s.a, s.b),
    ensures
        pinned_kept(s.a, between::pairs_met(s, pairs, rule, n).a),
        pinned_kept(s.b, between::pairs_met(s, pairs, rule, n).b),
    decreases n,
{
    if n > 0 {
        lemma_pairs_pinned_kept(s, pairs, rule, (n - 1) as nat);
        assert(pairs[n - 1].0 < s.a.len());
    }
}

/// What acts between two bodies adds and removes no particle, leaves pinned ones as they are, and
/// changes nothing about the others but their places and velocities.
pub proof fn lemma_meeting_keeps_pinned<R: Real>(
    a: Seq<model::SoftParticle<R>>,
    b: Seq<model::SoftParticle<R>>,
    rule: between::PairRule<R>,
)
    requires
        a.len() <= usize::MAX,
        b.len() <= usize::MAX,
    ensures
        pinned_kept(a, between::bodies_met(a, b, rule).a),
        pinned_kept(b, between::bodies_met(a, b, rule).b),
{
    lemma_found_movable(a, b, rule, a.len());
    let pairs = between::found(a, b, rule, a.len());
    lemma_pairs_pinned_kept(between::Two { a, b }, pairs, rule, pairs.len());
}

/// Whether there is a body at a place that takes part.
pub open spec fn participant<R: Real>(
    kind: between::Meeting,
    place: Option<model::SoftState<R>>,
) -> bool {
    place matches Some(b) && takes_part(kind, b)
}

/// At most one body takes part.
pub open spec fn at_most_one<R: Real>(
    kind: between::Meeting,
    s: Seq<Option<model::SoftState<R>>>,
) -> bool {
    forall|i: int, j: int|
        0 <= i < j < s.len() ==> !(#[trigger] participant(kind, s[i])
            && #[trigger] participant(kind, s[j]))
}

proof fn lemma_row_of_one<R: Real>(
    kind: between::Meeting,
    s: Seq<Option<model::SoftState<R>>>,
    i: nat,
    dt: R,
    n: nat,
)
    requires
        at_most_one(kind, s),
        i < s.len(),
        n <= s.len(),
    ensures
        kind.row(s, i, dt, n) == s,
    decreases n,
{
    if n > i + 1 {
        lemma_row_of_one(kind, s, i, dt, (n - 1) as nat);
        assert(!(participant(kind, s[i as int]) && participant(kind, s[n - 1])));
    }
}

proof fn lemma_pass_of_one<R: Real>(
    kind: between::Meeting,
    s: Seq<Option<model::SoftState<R>>>,
    dt: R,
    n: nat,
)
    requires
        at_most_one(kind, s),
        n <= s.len(),
    ensures
        kind.pass(s, dt, n) == s,
    decreases n,
{
    if n > 0 {
        lemma_pass_of_one(kind, s, dt, (n - 1) as nat);
        lemma_row_of_one(kind, s, (n - 1) as nat, dt, s.len());
    }
}

/// It takes two: in a set in which fewer than two bodies take part, nothing changes.
pub proof fn lemma_it_takes_two<R: Real>(
    kind: between::Meeting,
    s: Seq<Option<model::SoftState<R>>>,
    dt: R,
    k: nat,
)
    requires
        at_most_one(kind, s),
    ensures
        kind.passes(s, dt, k) == s,
    decreases k,
{
    if k > 0 {
        lemma_it_takes_two(kind, s, dt, (k - 1) as nat);
        lemma_pass_of_one(kind, s, dt, s.len());
    }
}

/// Whether what acts between bodies cannot rub a body: only collisions rub, and only bodies that
/// have friction set.
pub open spec fn unrubbed<R: Real>(kind: between::Meeting, s: model::SoftState<R>) -> bool {
    kind is Collision ==> (s.cross_collision matches Some(c) ==> c.friction is None)
}

/// The same number of particles, with the velocities that they had.
pub open spec fn velocities_kept<R: Real>(
    ps: Seq<model::SoftParticle<R>>,
    qs: Seq<model::SoftParticle<R>>,
) -> bool {
    &&& ps.len() == qs.len()
    &&& forall|i: int|
        #![trigger ps[i]]
        #![trigger qs[i]]
        0 <= i < ps.len() ==> qs[i].vel == ps[i].vel
}

/// The particles of every body can be counted in a `usize`.
pub open spec fn countable<R>(s: Seq<Option<model::SoftState<R>>>) -> bool {
    forall|k: int|
        0 <= k < s.len() ==> ((#[trigger] s[k]) matches Some(b) ==> b.particles.len()
            <= usize::MAX)
}

/// The same bodies with as many particles, of which those that nothing rubs have the velocities
/// that they had.
pub open spec fn unrubbed_kept<R: Real>(
    kind: between::Meeting,
    s: Seq<Option<model::SoftState<R>>>,
    t: Seq<Option<model::SoftState<R>>>,
) -> bool {
    &&& bystanders_kept(kind, s, t)
    &&& forall|k: int|
        #![trigger s[k]]
        #![trigger t[k]]
        0 <= k < s.len() ==> (s[k] matches Some(b) ==> {
            &&& t[k]->Some_0.particles.len() == b.particles.len()
            &&& unrubbed(kind, b) ==> velocities_kept(b.particles, t[k]->Some_0.particles)
        })
}

proof fn lemma_unrubbed_transitive<R: Real>(
    kind: between::Meeting,
    s: Seq<Option<model::SoftState<R>>>,
    t: Seq<Option<model::SoftState<R>>>,
    u: Seq<Option<model::SoftState<R>>>,
)
    requires
        unrubbed_kept(kind, s, t),
        unrubbed_kept(kind, t, u),
    ensures
        unrubbed_kept(kind, s, u),
{
    lemma_bystanders_transitive(kind, s, t, u);
    assert forall|k: int| 0 <= k < s.len() implies ((#[trigger] s[k]) matches Some(b) ==> {
        &&& u[k]->Some_0.particles.len() == b.particles.len()
        &&& unrubbed(kind, b) ==> velocities_kept(b.particles, u[k]->Some_0.particles)
    }) by {
        assert(t[k] is Some <==> s[k] is Some);
        if s[k] is Some && unrubbed(kind, s[k]->Some_0) {
            let a = s[k]->Some_0.particles;
            let b = t[k]->Some_0.particles;
            let c = u[k]->Some_0.particles;
            assert forall|i: int| 0 <= i < a.len() implies (#[trigger] c[i]).vel == a[i].vel by {
                assert(b[i].vel == a[i].vel);
            }
        }
    }
}

proof fn lemma_pairs_without_friction<R: Real>(
    s: between::Two<R>,
    pairs: Seq<(usize, usize)>,
    rule: between::PairRule<R>,
    n: nat,
)
    requires
        n <= pairs.len(),
        rule.friction is None,
        between::pairs_valid(pairs, s.a.len(), s.b.len()),
    ensures
        velocities_kept(s.a, between::pairs_met(s, pairs, rule, n).a),
        velocities_kept(s.b, between::pairs_met(s, pairs, rule, n).b),
    decreases n,
{
    if n > 0 {
        lemma_pairs_without_friction(s, pairs, rule, (n - 1) as nat);
        assert(pairs[n - 1].0 < s.a.len());
    }
}

proof fn lemma_places_unrubbed<R: Real>(
    kind: between::Meeting,
    s: Seq<Option<model::SoftState<R>>>,
    i: int,
    j: int,
    dt: R,
)
    requires
        0 <= i < j < s.len(),
        countable(s),
        bystanders_kept(kind, s, kind.places(s, i, j, dt)),
    ensures
        unrubbed_kept(kind, s, kind.places(s, i, j, dt)),
{
    let t = kind.places(s, i, j, dt);
    if let (Some(a), Some(b)) = (s[i], s[j]) {
        if let Some(rule) = kind.rule(a, b, dt) {
            let (ps, qs) = (a.particles, b.particles);
            let pairs = between::found(ps, qs, rule, ps.len());
            lemma_meeting_keeps_pinned(ps, qs, rule);
            lemma_found_movable(ps, qs, rule, ps.len());
            if rule.friction is None {
                assert(between::pairs_valid(pairs, ps.len(), qs.len()));
                lemma_pairs_without_friction(
                    between::Two { a: ps, b: qs },
                    pairs,
                    rule,
                    pairs.len(),
                );
            }
            let two = between::bodies_met(ps, qs, rule);
            assert(t[i]->Some_0.particles == two.a);
            assert(t[j]->Some_0.particles == two.b);
        }
    }
}

proof fn lemma_row_unrubbed<R: Real>(
    kind: between::Meeting,
    s: Seq<Option<model::SoftState<R>>>,
    i: nat,
    dt: R,
    n: nat,
)
    requires
        i < s.len(),
        n <= s.len(),
        countable(s),
    ensures
        unrubbed_kept(kind, s, kind.row(s, i, dt, n)),
    decreases n,
{
    if n > i + 1 {
        lemma_row_unrubbed(kind, s, i, dt, (n - 1) as nat);
        let p = kind.row(s, i, dt, (n - 1) as nat);
        let q = kind.row(s, i, dt, n);
        lemma_unrubbed_countable(kind, s, p);
        lemma_places_bystanders(kind, p, i as int, n - 1, dt);
        lemma_places_unrubbed(kind, p, i as int, n - 1, dt);
        lemma_unrubbed_transitive(kind, s, p, q);
    }
}

proof fn lemma_places_bystanders<R: Real>(
    kind: between::Meeting,
    s: Seq<Option<model::SoftState<R>>>,
    i: int,
    j: int,
    dt: R,
)
    requires
        0 <= i < j < s.len(),
    ensures
        bystanders_kept(kind, s, kind.places(s, i, j, dt)),
{
}

proof fn lemma_unrubbed_countable<R: Real>(
    kind: between::Meeting,
    s: Seq<Option<model::SoftState<R>>>,
    t: Seq<Option<model::SoftState<R>>>,
)
    requires
        unrubbed_kept(kind, s, t),
        countable(s),
    ensures
        countable(t),
{
    assert forall|k: int| 0 <= k < t.len() implies ((#[trigger] t[k]) matches Some(b)
        ==> b.particles.len() <= usize::MAX) by {
        assert(s[k] is Some <==> t[k] is Some);
    }
}

proof fn lemma_pass_unrubbed<R: Real>(
    kind: between::Meeting,
    s: Seq<Option<model::SoftState<R>>>,
    dt: R,
    n: nat,
)
    requires
        n <= s.len(),
        countable(s),
    ensures
        unrubbed_kept(kind, s, kind.pass(s, dt, n)),
    decreases n,
{
    if n > 0 {
        lemma_pass_unrubbed(kind, s, dt, (n - 1) as nat);
        let p = kind.pass(s, dt, (n - 1) as nat);
        lemma_unrubbed_countable(kind, s, p);
        lemma_row_unrubbed(kind, p, (n - 1) as nat, dt, s.len());
        lemma_unrubbed_transitive(kind, s, p, kind.pass(s, dt, n));
    }
}

/// Without friction nothing that acts between bodies changes a velocity: a body that has none set
/// keeps the velocities of its particles through all collisions, and every body does through
/// cohesion.
pub proof fn lemma_no_friction_keeps_velocities<R: Real>(
    kind: between::Meeting,
    s: Seq<Option<model::SoftState<R>>>,
    dt: R,
    k: nat,
)
    requires
        countable(s),
    ensures
        unrubbed_kept(kind, s, kind.passes(s, dt, k)),
    decreases k,
{
    if k > 0 {
        lemma_no_friction_keeps_velocities(kind, s, dt, (k - 1) as nat);
        let p = kind.passes(s, dt, (k - 1) as nat);
        lemma_unrubbed_countable(kind, s, p);
        lemma_pass_unrubbed(kind, p, dt, s.len());
        lemma_unrubbed_transitive(kind, s, p, kind.passes(s, dt, k));
    }
}

} // verus!
