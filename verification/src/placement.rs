//! What rotations, poses and points between points are, where arithmetic does not round.
use vstd::prelude::*;
use crate::dynamics::rigid_body::BodyModel;
use crate::math::{Pose, Rotation, Vector};
use crate::reals;
use crate::reals::{arrow, turn, unrounded, Arrow, Turn};
use crate::scalar;
use crate::scalar::Real;
use crate::spatial_hash;

verus! {

/// The rotation back undoes a rotation.
pub proof fn lemma_inverse_rotation_undoes<R: Real>(
    v: spec_fn(R) -> real,
    q: Rotation<R>,
    p: Vector<R>,
)
    requires
        unrounded(v),
        turn(v, q).inner(turn(v, q)) == 1real,
    ensures
        arrow(v, q.inverse().rotate(q.rotate(p))) == arrow(v, p),
        turn(v, q.inverse()).inner(turn(v, q.inverse())) == 1real,
{
    let b = q.rotate(p);
    reals::lemma_image(v, q, p);
    reals::lemma_image(v, q.inverse(), b);
    reals::lemma_vectors(v, q.v, q.v, q.w);
    let (t, u) = (turn(v, q), turn(v, q).axis);
    assert(turn(v, q.inverse()) == (Turn { axis: u.times(-1real), w: t.w }));
    reals::lemma_rotated_back(t, arrow(v, p));
    reals::lemma_inner_times(u, -1real, u.times(-1real));
    reals::lemma_inner_times(u, -1real, u);
}

/// A point taken to the world and back is where it was.
pub proof fn lemma_pose_is_undone<R: Real>(v: spec_fn(R) -> real, pose: Pose<R>, p: Vector<R>)
    requires
        unrounded(v),
        turn(v, pose.rotation).inner(turn(v, pose.rotation)) == 1real,
    ensures
        arrow(v, pose.inverse_transform_point(pose.transform_point(p))) == arrow(v, p),
{
    let (q, t) = (pose.rotation, pose.translation);
    let world = pose.transform_point(p);
    reals::lemma_vectors(v, q.rotate(p), t, q.w);
    reals::lemma_vectors(v, world, t, q.w);
    let back = world.sub(t);
    assert(arrow(v, back) == arrow(v, q.rotate(p)));
    reals::lemma_image(v, q.inverse(), back);
    reals::lemma_image(v, q.inverse(), q.rotate(p));
    lemma_inverse_rotation_undoes(v, q, p);
}

/// A pose moves points rigidly: it takes the origin to its translation, and keeps the distances of
/// points.
pub proof fn lemma_pose_is_rigid<R: Real>(
    v: spec_fn(R) -> real,
    pose: Pose<R>,
    a: Vector<R>,
    b: Vector<R>,
)
    requires
        unrounded(v),
        turn(v, pose.rotation).inner(turn(v, pose.rotation)) == 1real,
    ensures
        arrow(v, pose.transform_point(Vector::zero())) == arrow(v, pose.translation),
        arrow(v, pose.transform_point(a)).minus(arrow(v, pose.transform_point(b))).square()
            == arrow(v, a).minus(arrow(v, b)).square(),
{
    let (q, t) = (pose.rotation, pose.translation);
    reals::lemma_vectors(v, q.rotate(a), t, q.w);
    reals::lemma_vectors(v, q.rotate(b), t, q.w);
    reals::lemma_vectors(v, a, b, q.w);
    reals::lemma_image(v, q, a);
    reals::lemma_image(v, q, b);
    let d = a.sub(b);
    reals::lemma_image(v, q, d);
    reals::lemma_image_of_sum(turn(v, q), arrow(v, a), arrow(v, b));
    reals::lemma_rotation_turns(v, q, d);
    let zero = Vector::<R>::spec_zero();
    reals::lemma_vectors(v, q.rotate(zero), t, q.w);
    reals::lemma_image(v, q, zero);
    reals::lemma_rotation_turns(v, q, zero);
    reals::lemma_square(arrow(v, q.rotate(zero)));
    reals::lemma_square(arrow(v, zero));
}

/// The point at a fraction of the way to another one.
pub proof fn lemma_lerp_is_between<R: Real>(
    v: spec_fn(R) -> real,
    a: Vector<R>,
    b: Vector<R>,
    t: R,
)
    requires
        unrounded(v),
    ensures
        arrow(v, a.lerp(b, t)).minus(arrow(v, a)) == arrow(v, b).minus(arrow(v, a)).times(v(t)),
{
    let rest = R::one().sub(t);
    reals::lemma_vectors(v, a, a, rest);
    reals::lemma_vectors(v, b, b, t);
    reals::lemma_vectors(v, a.scale(rest), b.scale(t), t);
    let (x, y) = (arrow(v, a), arrow(v, b));
    lemma_way(x.x, y.x, v(t));
    lemma_way(x.y, y.y, v(t));
    lemma_way(x.z, y.z, v(t));
}

/// One coordinate of a way.
proof fn lemma_way(a: real, b: real, t: real)
    ensures
        a * (1real - t) + b * t - a == (b - a) * t,
{
    reals::lemma_sum_times(1real, t, a);
    reals::lemma_sum_times(b, a, t);
    reals::lemma_trivial_factors(a);
}

/// A body moves rigidly: the velocities at two of its points differ by the angular velocity across
/// the way between them, and the centre of mass has the linear velocity.
pub proof fn lemma_velocities_are_rigid<R: Real>(
    v: spec_fn(R) -> real,
    body: BodyModel<R>,
    a: Vector<R>,
    b: Vector<R>,
)
    requires
        unrounded(v),
    ensures
        arrow(v, body.velocity_at_point(a)).minus(arrow(v, body.velocity_at_point(b))) == arrow(
            v,
            body.angvel,
        ).across(arrow(v, a).minus(arrow(v, b))),
        arrow(v, body.velocity_at_point(body.mprops.world_com)) == arrow(v, body.linvel),
{
    lemma_velocity(v, body, a);
    lemma_velocity(v, body, b);
    lemma_velocity(v, body, body.mprops.world_com);
    let (w, c) = (arrow(v, body.angvel), arrow(v, body.mprops.world_com));
    let (x, y) = (arrow(v, a), arrow(v, b));
    reals::lemma_across_sum(w, x.minus(c), y.minus(c));
    assert(x.minus(c).minus(y.minus(c)) == x.minus(y));
    reals::lemma_trivial_factors(w.x);
    reals::lemma_trivial_factors(w.y);
    reals::lemma_trivial_factors(w.z);
    assert(w.across(Arrow::none()) == Arrow::none());
}

proof fn lemma_velocity<R: Real>(v: spec_fn(R) -> real, body: BodyModel<R>, a: Vector<R>)
    requires
        unrounded(v),
    ensures
        arrow(v, body.velocity_at_point(a)) == arrow(v, body.linvel).plus(
            arrow(v, body.angvel).across(arrow(v, a).minus(arrow(v, body.mprops.world_com))),
        ),
{
    let c = body.mprops.world_com;
    let r = a.sub(c);
    let s = R::one();
    reals::lemma_vectors(v, a, c, s);
    reals::lemma_vectors(v, body.angvel, r, s);
    reals::lemma_vectors(v, body.linvel, body.angvel.cross(r), s);
}

/// The rotation and the pose that leave everything as it is do so.
pub proof fn lemma_identity_moves_nothing<R: Real>(v: spec_fn(R) -> real, p: Vector<R>)
    requires
        unrounded(v),
    ensures
        arrow(v, Rotation::<R>::spec_identity().rotate(p)) == arrow(v, p),
        arrow(v, Pose::<R>::spec_identity().transform_point(p)) == arrow(v, p),
{
    let q = Rotation::<R>::spec_identity();
    reals::lemma_image(v, q, p);
    reals::lemma_vectors(v, p, p, R::one());
    let (t, a) = (turn(v, q), arrow(v, p));
    assert(t.axis == Arrow::none() && t.w == 1real);
    reals::lemma_trivial_factors(1real);
    reals::lemma_trivial_factors(0real);
    reals::lemma_trivial_factors(a.x);
    reals::lemma_trivial_factors(a.y);
    reals::lemma_trivial_factors(a.z);
    assert(t.axis.square() == 0real);
    assert(a.inner(t.axis) == 0real);
    assert(t.axis.across(a) == Arrow::none());
    assert(t.image(a) == a);
    reals::lemma_vectors(v, q.rotate(p), Vector::zero(), R::one());
}

/// The product by coordinates.
pub proof fn lemma_component_mul<R: Real>(v: spec_fn(R) -> real, p: Vector<R>, q: Vector<R>)
    requires
        unrounded(v),
    ensures
        ({
            let (a, b, c) = (arrow(v, p), arrow(v, q), arrow(v, p.component_mul(q)));
            c.x == a.x * b.x && c.y == a.y * b.y && c.z == a.z * b.z
        }),
{
}

/// A clamped value lies between its limits, and is the value itself where that does.
pub proof fn lemma_clamp_limits<R: Real>(v: spec_fn(R) -> real, x: R, lo: R, hi: R)
    requires
        unrounded(v),
        v(lo) <= v(hi),
    ensures
        v(lo) <= v(scalar::clamp(x, lo, hi)) <= v(hi),
        v(lo) <= v(x) <= v(hi) ==> v(scalar::clamp(x, lo, hi)) == v(x),
        v(x) < v(lo) ==> v(scalar::clamp(x, lo, hi)) == v(lo),
        v(x) > v(hi) ==> v(scalar::clamp(x, lo, hi)) == v(hi),
{
}

/// Whether the floor of a number is the largest integer that is not above it, where that is in
/// range.
pub open spec fn floors<R: Real>(v: spec_fn(R) -> real) -> bool {
    forall|a: R|
        (i64::MIN as int) as real <= v(a) < (i64::MAX as int) as real ==> ((
        #[trigger] a.floor()) as int) as real <= v(a) < (a.floor() as int) as real + 1real
}

/// The cell of a point holds it: along every axis the point is between the sides of the cell.
pub proof fn lemma_cell_holds_its_point<R: Real>(v: spec_fn(R) -> real, p: Vector<R>, size: R)
    requires
        unrounded(v),
        floors(v),
        v(size) > 0real,
        (i64::MIN as int) as real <= v(p.x) / v(size) < (i64::MAX as int) as real,
        (i64::MIN as int) as real <= v(p.y) / v(size) < (i64::MAX as int) as real,
        (i64::MIN as int) as real <= v(p.z) / v(size) < (i64::MAX as int) as real,
    ensures
        ({
            let (c, a, s) = (spatial_hash::cell_of(p, size), arrow(v, p), v(size));
            &&& (c.x as int) as real * s <= a.x < ((c.x as int) as real + 1real) * s
            &&& (c.y as int) as real * s <= a.y < ((c.y as int) as real + 1real) * s
            &&& (c.z as int) as real * s <= a.z < ((c.z as int) as real + 1real) * s
        }),
{
    let c = spatial_hash::cell_of(p, size);
    assert(c.x == p.x.div(size).floor() && c.y == p.y.div(size).floor() && c.z == p.z.div(
        size,
    ).floor());
    lemma_between_sides(v(p.x), v(size), (c.x as int) as real);
    lemma_between_sides(v(p.y), v(size), (c.y as int) as real);
    lemma_between_sides(v(p.z), v(size), (c.z as int) as real);
}

proof fn lemma_between_sides(x: real, s: real, c: real)
    requires
        s > 0real,
        c <= x / s < c + 1real,
    ensures
        c * s <= x < (c + 1real) * s,
{
    let q = x / s;
    reals::lemma_quotient(x, s);
    reals::lemma_product_sign(q - c, s);
    reals::lemma_sum_times(q, c, s);
    reals::lemma_product_sign(c + 1real - q, s);
    reals::lemma_sum_times(c + 1real, q, s);
}

} // verus!
