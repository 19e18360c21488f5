//! No close pair is missed: looking around the cell of a particle finds all that are in reach.
use vstd::prelude::*;
use crate::dynamics::soft_body::between;
use crate::dynamics::soft_body::model;
use crate::dynamics::soft_body::self_collision;
use crate::fixed::Fixed;
use crate::math::Vector;
use crate::scalar::Real;
use crate::spatial_hash;

verus! {

proof fn lemma_free_is_placed<R: Real>(
    ps: Seq<model::SoftParticle<R>>,
    size: R,
    n: nat,
    j: int,
) -> (k: int)
    requires
        0 <= j < n <= ps.len(),
        ps[j].is_free(),
    ensures
        0 <= k < self_collision::free_cells(ps, size, n).len(),
        self_collision::free_cells(ps, size, n)[k] == (spatial_hash::Placed {
            cell: spatial_hash::cell_of(ps[j].pos, size),
            item: j as usize,
        }),
    decreases n,
{
    if j == n - 1 {
        self_collision::free_cells(ps, size, (n - 1) as nat).len() as int
    } else {
        lemma_free_is_placed(ps, size, (n - 1) as nat, j)
    }
}

proof fn lemma_movable_is_placed<R: Real>(
    ps: Seq<model::SoftParticle<R>>,
    size: R,
    n: nat,
    j: int,
) -> (k: int)
    requires
        0 <= j < n <= ps.len(),
        !ps[j].is_pinned(),
    ensures
        0 <= k < between::movable_cells(ps, size, n).len(),
        between::movable_cells(ps, size, n)[k] == (spatial_hash::Placed {
            cell: spatial_hash::cell_of(ps[j].pos, size),
            item: j as usize,
        }),
    decreases n,
{
    if j == n - 1 {
        between::movable_cells(ps, size, (n - 1) as nat).len() as int
    } else {
        lemma_movable_is_placed(ps, size, (n - 1) as nat, j)
    }
}

/// Around the cell of any point are found all free particles of a body that are at most the edge
/// length of a cell away from it along every axis.
pub proof fn lemma_close_free_particles_are_found(
    ps: Seq<model::SoftParticle<Fixed>>,
    p: Vector<Fixed>,
    size: Fixed,
    j: int,
)
    requires
        size.raw > 0,
        0 <= j < ps.len(),
        ps[j].is_free(),
        spatial_hash::within(p, ps[j].pos, size),
    ensures
        spatial_hash::around(
            self_collision::free_cells(ps, size, ps.len()),
            spatial_hash::cell_of(p, size),
        ).contains(j as usize),
{
    let k = lemma_free_is_placed(ps, size, ps.len(), j);
    spatial_hash::lemma_close_items_are_found(
        self_collision::free_cells(ps, size, ps.len()),
        p,
        ps[j].pos,
        size,
        k,
    );
}

/// Whether one pass of repulsion has to push two particles apart: both are free, no edge joins
/// them, and they are closer than the distance to keep.
pub open spec fn too_close<R: Real>(s: model::SoftState<R>, d: R, i: int, j: int) -> bool {
    &&& s.particles[i].is_free()
    &&& s.particles[j].is_free()
    &&& !self_collision::linked(s.distance_constraints, i, j)
    &&& s.particles[i].pos.sub(s.particles[j].pos).length().lt(d)
}

proof fn lemma_contacts_grow<R: Real>(
    rep: self_collision::Repulsion<R>,
    s: self_collision::Pushed<R>,
    i: int,
    js: Seq<usize>,
    n: nat,
)
    ensures
        rep.against(s, i, js, n).contacts.len() >= s.contacts.len(),
        rep.against(s, i, js, n).contacts.len() == s.contacts.len() ==> rep.against(s, i, js, n)
            == s,
    decreases n,
{
    if n > 0 {
        lemma_contacts_grow(rep, s, i, js, (n - 1) as nat);
    }
}

proof fn lemma_none_against<R: Real>(
    rep: self_collision::Repulsion<R>,
    s: self_collision::Pushed<R>,
    i: int,
    js: Seq<usize>,
    n: nat,
    k: int,
)
    requires
        0 <= k < n <= js.len(),
        rep.against(s, i, js, n).contacts.len() == s.contacts.len(),
    ensures
        js[k] > i ==> self_collision::linked(rep.edges, i, js[k] as int)
            || !s.particles[i].pos.sub(s.particles[js[k] as int].pos).length().lt(rep.d),
    decreases n,
{
    lemma_contacts_grow(rep, s, i, js, (n - 1) as nat);
    if k < n - 1 {
        lemma_none_against(rep, s, i, js, (n - 1) as nat, k);
    }
}

proof fn lemma_none_at_all<R: Real>(
    rep: self_collision::Repulsion<R>,
    s: self_collision::Pushed<R>,
    n: nat,
)
    ensures
        rep.all(s, n).contacts.len() >= s.contacts.len(),
        rep.all(s, n).contacts.len() == s.contacts.len() ==> rep.all(s, n) == s,
    decreases n,
{
    if n > 0 {
        lemma_none_at_all(rep, s, (n - 1) as nat);
        let p = rep.all(s, (n - 1) as nat);
        let cell = spatial_hash::cell_of(p.particles[n - 1].pos, rep.d);
        let js = spatial_hash::around(rep.entries, cell);
        lemma_contacts_grow(rep, p, n - 1, js, js.len());
    }
}

proof fn lemma_none_for<R: Real>(
    rep: self_collision::Repulsion<R>,
    s: self_collision::Pushed<R>,
    n: nat,
    i: int,
)
    requires
        0 <= i < n,
        rep.all(s, n).contacts.len() == s.contacts.len(),
    ensures
        rep.particle(s, i).contacts.len() == s.contacts.len(),
    decreases n,
{
    lemma_none_at_all(rep, s, (n - 1) as nat);
    let p = rep.all(s, (n - 1) as nat);
    let cell = spatial_hash::cell_of(p.particles[n - 1].pos, rep.d);
    let js = spatial_hash::around(rep.entries, cell);
    lemma_contacts_grow(rep, p, n - 1, js, js.len());
    if i < n - 1 {
        lemma_none_for(rep, s, (n - 1) as nat, i);
    }
}

/// Repulsion misses nobody: where a pass reports no pair, no two particles have to be pushed apart.
/// Where the distance to keep is not an ordinary one, rounding can make it seem that they have to;
/// then this is known of particles that are at most that distance apart along every axis.
pub proof fn lemma_no_contact_means_apart(
    s: model::SoftState<Fixed>,
    alpha: Fixed,
    radius: Fixed,
    i: int,
    j: int,
)
    requires
        s.particles.len() <= usize::MAX,
        s.self_collision matches Some(p) && p.radius == radius,
        radius.mul(Fixed::decimal(2, 0)).raw > 0,
        s.self_collided(alpha).contacts.len() == 0,
        0 <= i < j < s.particles.len(),
        spatial_hash::ordinary(radius.mul(Fixed::decimal(2, 0))) || spatial_hash::within(
            s.particles[i].pos,
            s.particles[j].pos,
            radius.mul(Fixed::decimal(2, 0)),
        ),
    ensures
        !too_close(s, radius.mul(Fixed::decimal(2, 0)), i, j),
{
    let d = radius.mul(Fixed::decimal(2, 0));
    let ps = s.particles;
    if too_close(s, d, i, j) {
        if spatial_hash::ordinary(d) {
            spatial_hash::lemma_short_distance_is_within(ps[i].pos, ps[j].pos, d);
        }
        let rep = self_collision::Repulsion {
            edges: s.distance_constraints,
            entries: self_collision::free_cells(ps, d, ps.len()),
            d,
            alpha,
            w: self_collision::weights(ps),
        };
        let start = self_collision::Pushed { particles: ps, contacts: Seq::empty() };
        let cell = spatial_hash::cell_of(ps[i].pos, d);
        let js = spatial_hash::around(rep.entries, cell);
        lemma_none_for(rep, start, ps.len(), i);
        spatial_hash::lemma_cells_have_room(ps[i].pos, d);
        lemma_close_free_particles_are_found(ps, ps[i].pos, d, j);
        let k = choose|k: int| 0 <= k < js.len() && js[k] == j as usize;
        lemma_none_against(rep, start, i, js, js.len(), k);
    }
}

proof fn lemma_found_by_has<R: Real>(
    a: Seq<model::SoftParticle<R>>,
    b: Seq<model::SoftParticle<R>>,
    i: int,
    js: Seq<usize>,
    rule: between::PairRule<R>,
    n: nat,
    k: int,
)
    requires
        0 <= k < n <= js.len(),
        rule.acts_at(a[i].pos.sub(b[js[k] as int].pos).length()),
    ensures
        between::found_by(a, b, i, js, rule, n).contains((i as usize, js[k])),
    decreases n,
{
    let before = between::found_by(a, b, i, js, rule, (n - 1) as nat);
    let all = between::found_by(a, b, i, js, rule, n);
    if k < n - 1 {
        lemma_found_by_has(a, b, i, js, rule, (n - 1) as nat, k);
        let m = choose|m: int| 0 <= m < before.len() && before[m] == (i as usize, js[k]);
        assert(all[m] == (i as usize, js[k]));
    } else {
        assert(all[before.len() as int] == (i as usize, js[k]));
    }
}

proof fn lemma_found_has<R: Real>(
    a: Seq<model::SoftParticle<R>>,
    b: Seq<model::SoftParticle<R>>,
    rule: between::PairRule<R>,
    n: nat,
    i: int,
    j: usize,
)
    requires
        0 <= i < n <= a.len(),
        !a[i].is_pinned(),
        rule.acts_at(a[i].pos.sub(b[j as int].pos).length()),
        spatial_hash::around(
            between::movable_cells(b, rule.reach, b.len()),
            spatial_hash::cell_of(a[i].pos, rule.reach),
        ).contains(j),
    ensures
        between::found(a, b, rule, n).contains((i as usize, j)),
    decreases n,
{
    let before = between::found(a, b, rule, (n - 1) as nat);
    let all = between::found(a, b, rule, n);
    let pair = (i as usize, j);
    if i < n - 1 {
        lemma_found_has(a, b, rule, (n - 1) as nat, i, j);
        let m = choose|m: int| 0 <= m < before.len() && before[m] == pair;
        assert(all[m] == pair);
    } else {
        let js = spatial_hash::around(
            between::movable_cells(b, rule.reach, b.len()),
            spatial_hash::cell_of(a[i].pos, rule.reach),
        );
        let k = choose|k: int| 0 <= k < js.len() && js[k] == j;
        lemma_found_by_has(a, b, i, js, rule, js.len(), k);
        let more = between::found_by(a, b, i, js, rule, js.len());
        let m = choose|m: int| 0 <= m < more.len() && more[m] == pair;
        assert(all[before.len() + m] == pair);
    }
}

/// Two bodies miss no pair: movable particles that act on each other are found. Where the reach is
/// not an ordinary one, rounding can make it seem that they act on each other; then this is known
/// of particles that are at most the reach apart along every axis.
pub proof fn lemma_close_particles_meet(
    a: Seq<model::SoftParticle<Fixed>>,
    b: Seq<model::SoftParticle<Fixed>>,
    rule: between::PairRule<Fixed>,
    i: int,
    j: int,
)
    requires
        rule.reach.raw > 0,
        0 <= i < a.len(),
        0 <= j < b.len() <= usize::MAX,
        !a[i].is_pinned(),
        !b[j].is_pinned(),
        rule.acts_at(a[i].pos.sub(b[j].pos).length()),
        spatial_hash::ordinary(rule.reach) || spatial_hash::within(
            a[i].pos,
            b[j].pos,
            rule.reach,
        ),
    ensures
        between::found(a, b, rule, a.len()).contains((i as usize, j as usize)),
{
    if spatial_hash::ordinary(rule.reach) {
        spatial_hash::lemma_short_distance_is_within(a[i].pos, b[j].pos, rule.reach);
    }
    let k = lemma_movable_is_placed(b, rule.reach, b.len(), j);
    spatial_hash::lemma_close_items_are_found(
        between::movable_cells(b, rule.reach, b.len()),
        a[i].pos,
        b[j].pos,
        rule.reach,
        k,
    );
    lemma_found_has(a, b, rule, a.len(), i, j as usize);
}

} // verus!
