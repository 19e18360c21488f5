//! What boxes, directions and planes are, where arithmetic does not round.
use vstd::prelude::*;
use crate::fixed;
use crate::geometry::aabb::Aabb;
use crate::geometry::direction_hull;
use crate::geometry::direction_hull::Plane;
use crate::math::Vector;
use crate::reals;
use crate::reals::{arrow, unrounded, Arrow};
use crate::scalar::Real;

verus! {

/// Whether a point lies in a box.
pub open spec fn lies_in<R: Real>(v: spec_fn(R) -> real, b: Aabb<R>, p: Arrow) -> bool {
    &&& v(b.mins.x) <= p.x <= v(b.maxs.x)
    &&& v(b.mins.y) <= p.y <= v(b.maxs.y)
    &&& v(b.mins.z) <= p.z <= v(b.maxs.z)
}

/// Whether a box has its corners in order, so that it holds some point.
pub open spec fn is_box<R: Real>(v: spec_fn(R) -> real, b: Aabb<R>) -> bool {
    lies_in(v, b, arrow(v, b.mins))
}

/// Two boxes intersect where some point lies in both.
pub proof fn lemma_boxes_share_a_point<R: Real>(v: spec_fn(R) -> real, a: Aabb<R>, b: Aabb<R>)
    requires
        unrounded(v),
        is_box(v, a),
        is_box(v, b),
    ensures
        a.intersects(b) <==> exists|p: Arrow| #[trigger] lies_in(v, a, p) && lies_in(v, b, p),
{
    if a.intersects(b) {
        let p = Arrow {
            x: v(a.mins.x.max(b.mins.x)),
            y: v(a.mins.y.max(b.mins.y)),
            z: v(a.mins.z.max(b.mins.z)),
        };
        assert(lies_in(v, a, p) && lies_in(v, b, p));
    }
}

/// Whether one box lies in another.
pub open spec fn encloses<R: Real>(v: spec_fn(R) -> real, c: Aabb<R>, a: Aabb<R>) -> bool {
    lies_in(v, c, arrow(v, a.mins)) && lies_in(v, c, arrow(v, a.maxs))
}

/// The union of two boxes holds both, and every box that holds both holds the union.
pub proof fn lemma_union_is_smallest<R: Real>(
    v: spec_fn(R) -> real,
    a: Aabb<R>,
    b: Aabb<R>,
    c: Aabb<R>,
)
    requires
        unrounded(v),
        is_box(v, a),
        is_box(v, b),
    ensures
        encloses(v, a.union(b), a),
        encloses(v, a.union(b), b),
        encloses(v, c, a) && encloses(v, c, b) ==> encloses(v, c, a.union(b)),
{
}

/// One coordinate of an arrow.
pub open spec fn along(p: Arrow, axis: usize) -> real {
    if axis == 0 {
        p.x
    } else if axis == 1 {
        p.y
    } else {
        p.z
    }
}

/// The middle of a box is as far from its lower as from its upper side, and its length is the
/// distance between them; no axis is longer than the longest, and none before it is as long.
pub proof fn lemma_middle_and_length<R: Real>(
    v: spec_fn(R) -> real,
    b: Aabb<R>,
    axis: usize,
)
    requires
        unrounded(v),
        axis < 3,
    ensures
        ({
            let (low, high) = (along(arrow(v, b.mins), axis), along(arrow(v, b.maxs), axis));
            let longest = v(b.extent_axis(b.longest_axis()));
            &&& v(b.center_axis(axis)) - low == high - v(b.center_axis(axis))
            &&& v(b.extent_axis(axis)) == high - low
            &&& b.longest_axis() < 3
            &&& v(b.extent_axis(axis)) <= longest
            &&& axis < b.longest_axis() ==> v(b.extent_axis(axis)) < longest
        }),
{
    let (low, high) = (along(arrow(v, b.mins), axis), along(arrow(v, b.maxs), axis));
    let half = v(R::decimal(5, 1));
    assert(fixed::pow10(1) == 10) by {
        reveal_with_fuel(fixed::pow10, 3);
    }
    reals::lemma_quotient(5real, 10real);
    assert(half == 5real / 10real);
    reals::lemma_sum_times(half, half, low + high);
    reals::lemma_trivial_factors(low + high);
}

/// A direction is given length one and keeps its direction; one with next to no length is given
/// none.
pub proof fn lemma_direction_has_length_one<R: Real>(
    v: spec_fn(R) -> real,
    direction: Vector<R>,
    l: real,
)
    requires
        unrounded(v),
        l >= 0real,
        l * l == arrow(v, direction).square(),
    ensures
        direction_hull::normalize_direction(direction) is Some <==> l > v(R::decimal(1, 9)),
        direction_hull::normalize_direction(direction) matches Some(n) ==> arrow(v, n).square()
            == 1real && arrow(v, n).times(l) == arrow(v, direction),
{
    let len = direction.length();
    reals::lemma_vectors(v, direction, direction, len);
    reals::lemma_same_square(v(len), l);
    reals::lemma_decimal_positive(v, 1, 9);
    if l > v(R::decimal(1, 9)) {
        let n = arrow(v, direction.div(len));
        let d = arrow(v, direction);
        assert(n.times(l) == d);
        reals::lemma_inner_times(n, l, d);
        reals::lemma_inner_times(n, l, n);
        let q = n.square();
        reals::lemma_factors(q, l, l);
        reals::lemma_product_sign(l, l);
        reals::lemma_trivial_factors(l * l);
        reals::lemma_cancel(q, 1real, l * l);
    }
}

/// Three planes meet in the point that lies on all of them, unless their normals are next to in one
/// plane.
pub proof fn lemma_planes_meet<R: Real>(
    v: spec_fn(R) -> real,
    a: Plane<R>,
    b: Plane<R>,
    c: Plane<R>,
)
    requires
        unrounded(v),
    ensures
        ({
            let (na, nb, nc) = (arrow(v, a.normal), arrow(v, b.normal), arrow(v, c.normal));
            let volume = na.inner(nb.across(nc));
            let least = v(R::decimal(1, 9));
            &&& direction_hull::solve_planes(a, b, c) is Some <==> volume > least || volume < -least
            &&& direction_hull::solve_planes(a, b, c) matches Some(p) ==> {
                &&& na.inner(arrow(v, p)) == v(a.offset)
                &&& nb.inner(arrow(v, p)) == v(b.offset)
                &&& nc.inner(arrow(v, p)) == v(c.offset)
            }
        }),
{
    let (na, nb, nc) = (arrow(v, a.normal), arrow(v, b.normal), arrow(v, c.normal));
    let (bc, ca, ab) = (
        b.normal.cross(c.normal),
        c.normal.cross(a.normal),
        a.normal.cross(b.normal),
    );
    let det = a.normal.dot(bc);
    reals::lemma_vectors(v, b.normal, c.normal, a.offset);
    reals::lemma_vectors(v, c.normal, a.normal, b.offset);
    reals::lemma_vectors(v, a.normal, b.normal, c.offset);
    reals::lemma_vectors(v, a.normal, bc, a.offset);
    reals::lemma_decimal_positive(v, 1, 9);
    let d = v(det);
    if d > v(R::decimal(1, 9)) || d < -v(R::decimal(1, 9)) {
        reals::lemma_vectors(v, bc, bc, a.offset);
        reals::lemma_vectors(v, ca, ca, b.offset);
        reals::lemma_vectors(v, ab, ab, c.offset);
        let (x, y, z) = (bc.scale(a.offset), ca.scale(b.offset), ab.scale(c.offset));
        reals::lemma_vectors(v, x, y, det);
        reals::lemma_vectors(v, x.add(y), z, det);
        let sum = x.add(y).add(z);
        reals::lemma_vectors(v, sum, sum, det);
        let p = arrow(v, sum.div(det));
        let (p1, p2, p3) = (nb.across(nc), nc.across(na), na.across(nb));
        let (oa, ob, oc) = (v(a.offset), v(b.offset), v(c.offset));
        assert(p.times(d) == p1.times(oa).plus(p2.times(ob)).plus(p3.times(oc)));
        reals::lemma_cyclic(na, nb, nc);
        lemma_on_plane(na, nb, nc, p, d, oa, ob, oc);
        lemma_on_plane(nb, nc, na, p, d, ob, oc, oa);
        lemma_on_plane(nc, na, nb, p, d, oc, oa, ob);
    }
}

/// The point lies on the first of three planes.
proof fn lemma_on_plane(
    a: Arrow,
    b: Arrow,
    c: Arrow,
    p: Arrow,
    d: real,
    oa: real,
    ob: real,
    oc: real,
)
    requires
        d != 0real,
        d == a.inner(b.across(c)),
        p.times(d) == b.across(c).times(oa).plus(c.across(a).times(ob)).plus(
            a.across(b).times(oc),
        ),
    ensures
        a.inner(p) == oa,
{
    let (x, y, z) = (b.across(c).times(oa), c.across(a).times(ob), a.across(b).times(oc));
    reals::lemma_inner_plus(x.plus(y), z, a);
    reals::lemma_inner_plus(x, y, a);
    reals::lemma_inner_times(b.across(c), oa, a);
    reals::lemma_inner_times(c.across(a), ob, a);
    reals::lemma_inner_times(a.across(b), oc, a);
    reals::lemma_across(c, a, a);
    reals::lemma_across(a, b, b);
    reals::lemma_trivial_factors(ob);
    reals::lemma_trivial_factors(oc);
    reals::lemma_inner_times(p, d, a);
    reals::lemma_sum_times(d, 0real, oa);
    reals::lemma_cancel(a.inner(p), oa, d);
}

} // verus!
