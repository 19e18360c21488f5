//! Points, directions, rotations and poses of three-dimensional space.
use vstd::prelude::*;
use crate::scalar::Real;

verus! {

/// A point or direction.
#[derive(Clone, Copy, Debug, PartialEq)]
pub struct Vector<R> {
    /// First coordinate.
    pub x: R,
    /// Second coordinate.
    pub y: R,
    /// Third coordinate.
    pub z: R,
}

/// A rotation axis scaled by a rate, or a torque.
pub type AngVector<R> = Vector<R>;

impl<R: Real> Vector<R> {
    pub open spec fn spec_new(x: R, y: R, z: R) -> Vector<R> {
        Vector { x, y, z }
    }

    /// The vector with the given coordinates.
    #[verifier::when_used_as_spec(spec_new)]
    pub fn new(x: R, y: R, z: R) -> (r: Vector<R>)
        ensures
            r == Self::spec_new(x, y, z),
    {
        Vector { x, y, z }
    }

    pub open spec fn spec_zero() -> Vector<R> {
        Vector { x: R::zero(), y: R::zero(), z: R::zero() }
    }

    /// The origin.
    #[verifier::when_used_as_spec(spec_zero)]
    pub fn zero() -> (r: Vector<R>)
        ensures
            r == Self::spec_zero(),
    {
        Vector { x: R::zero(), y: R::zero(), z: R::zero() }
    }

    pub open spec fn spec_add(self, rhs: Vector<R>) -> Vector<R> {
        Vector { x: self.x.add(rhs.x), y: self.y.add(rhs.y), z: self.z.add(rhs.z) }
    }

    /// Sum by coordinates.
    #[verifier::when_used_as_spec(spec_add)]
    pub fn add(self, rhs: Vector<R>) -> (r: Vector<R>)
        ensures
            r == self.spec_add(rhs),
    {
        Vector { x: self.x.add(rhs.x), y: self.y.add(rhs.y), z: self.z.add(rhs.z) }
    }

    pub open spec fn spec_sub(self, rhs: Vector<R>) -> Vector<R> {
        Vector { x: self.x.sub(rhs.x), y: self.y.sub(rhs.y), z: self.z.sub(rhs.z) }
    }

    /// Difference by coordinates.
    #[verifier::when_used_as_spec(spec_sub)]
    pub fn sub(self, rhs: Vector<R>) -> (r: Vector<R>)
        ensures
            r == self.spec_sub(rhs),
    {
        Vector { x: self.x.sub(rhs.x), y: self.y.sub(rhs.y), z: self.z.sub(rhs.z) }
    }

    pub open spec fn spec_neg(self) -> Vector<R> {
        Vector { x: self.x.neg(), y: self.y.neg(), z: self.z.neg() }
    }

    /// Opposite direction.
    #[verifier::when_used_as_spec(spec_neg)]
    pub fn neg(self) -> (r: Vector<R>)
        ensures
            r == self.spec_neg(),
    {
        Vector { x: self.x.neg(), y: self.y.neg(), z: self.z.neg() }
    }

    pub open spec fn spec_scale(self, s: R) -> Vector<R> {
        Vector { x: self.x.mul(s), y: self.y.mul(s), z: self.z.mul(s) }
    }

    /// Every coordinate times `s`.
    #[verifier::when_used_as_spec(spec_scale)]
    pub fn scale(self, s: R) -> (r: Vector<R>)
        ensures
            r == self.spec_scale(s),
    {
        Vector { x: self.x.mul(s), y: self.y.mul(s), z: self.z.mul(s) }
    }

    pub open spec fn spec_component_mul(self, rhs: Vector<R>) -> Vector<R> {
        Vector { x: self.x.mul(rhs.x), y: self.y.mul(rhs.y), z: self.z.mul(rhs.z) }
    }

    /// Product by coordinates.
    #[verifier::when_used_as_spec(spec_component_mul)]
    pub fn component_mul(self, rhs: Vector<R>) -> (r: Vector<R>)
        ensures
            r == self.spec_component_mul(rhs),
    {
        Vector { x: self.x.mul(rhs.x), y: self.y.mul(rhs.y), z: self.z.mul(rhs.z) }
    }

    pub open spec fn spec_div(self, s: R) -> Vector<R> {
        Vector { x: self.x.div(s), y: self.y.div(s), z: self.z.div(s) }
    }

    /// Every coordinate divided by `s`.
    #[verifier::when_used_as_spec(spec_div)]
    pub fn div(self, s: R) -> (r: Vector<R>)
        ensures
            r == self.spec_div(s),
    {
        Vector { x: self.x.div(s), y: self.y.div(s), z: self.z.div(s) }
    }

    pub open spec fn spec_dot(self, rhs: Vector<R>) -> R {
        self.x.mul(rhs.x).add(self.y.mul(rhs.y)).add(self.z.mul(rhs.z))
    }

    /// Inner product.
    #[verifier::when_used_as_spec(spec_dot)]
    pub fn dot(self, rhs: Vector<R>) -> (r: R)
        ensures
            r == self.spec_dot(rhs),
    {
        self.x.mul(rhs.x).add(self.y.mul(rhs.y)).add(self.z.mul(rhs.z))
    }

    pub open spec fn spec_cross(self, rhs: Vector<R>) -> Vector<R> {
        Vector {
            x: self.y.mul(rhs.z).sub(rhs.y.mul(self.z)),
            y: self.z.mul(rhs.x).sub(rhs.z.mul(self.x)),
            z: self.x.mul(rhs.y).sub(rhs.x.mul(self.y)),
        }
    }

    /// Cross product.
    #[verifier::when_used_as_spec(spec_cross)]
    pub fn cross(self, rhs: Vector<R>) -> (r: Vector<R>)
        ensures
            r == self.spec_cross(rhs),
    {
        Vector {
            x: self.y.mul(rhs.z).sub(rhs.y.mul(self.z)),
            y: self.z.mul(rhs.x).sub(rhs.z.mul(self.x)),
            z: self.x.mul(rhs.y).sub(rhs.x.mul(self.y)),
        }
    }

    pub open spec fn spec_length_squared(self) -> R {
        self.dot(self)
    }

    /// Squared Euclidean length.
    #[verifier::when_used_as_spec(spec_length_squared)]
    pub fn length_squared(self) -> (r: R)
        ensures
            r == self.spec_length_squared(),
    {
        self.dot(self)
    }

    pub open spec fn spec_length(self) -> R {
        self.dot(self).sqrt()
    }

    /// Euclidean length.
    #[verifier::when_used_as_spec(spec_length)]
    pub fn length(self) -> (r: R)
        ensures
            r == self.spec_length(),
    {
        self.dot(self).sqrt()
    }

    pub open spec fn spec_normalize(self) -> Vector<R> {
        self.scale(R::one().div(self.length()))
    }

    /// The direction with length one: the vector times the reciprocal of its length.
    #[verifier::when_used_as_spec(spec_normalize)]
    pub fn normalize(self) -> (r: Vector<R>)
        ensures
            r == self.spec_normalize(),
    {
        self.scale(R::one().div(self.length()))
    }

    pub open spec fn spec_lerp(self, rhs: Vector<R>, t: R) -> Vector<R> {
        self.scale(R::one().sub(t)).add(rhs.scale(t))
    }

    /// The point at the fraction `t` of the way to another one.
    #[verifier::when_used_as_spec(spec_lerp)]
    pub fn lerp(self, rhs: Vector<R>, t: R) -> (r: Vector<R>)
        ensures
            r == self.spec_lerp(rhs, t),
    {
        self.scale(R::one().sub(t)).add(rhs.scale(t))
    }

    pub open spec fn spec_is_finite(self) -> bool {
        self.x.is_finite() && self.y.is_finite() && self.z.is_finite()
    }

    /// Whether every coordinate is an ordinary number.
    #[verifier::when_used_as_spec(spec_is_finite)]
    pub fn is_finite(self) -> (r: bool)
        ensures
            r == self.spec_is_finite(),
    {
        self.x.is_finite() && self.y.is_finite() && self.z.is_finite()
    }
}

/// A rotation as a unit quaternion `w + x·i + y·j + z·k`.
#[derive(Clone, Copy, Debug, PartialEq)]
pub struct Rotation<R> {
    /// Coefficients of the imaginary units.
    pub v: Vector<R>,
    /// Real coefficient.
    pub w: R,
}

impl<R: Real> Rotation<R> {
    pub open spec fn spec_identity() -> Rotation<R> {
        Rotation { v: Vector::zero(), w: R::one() }
    }

    /// The rotation that leaves every direction as it is.
    #[verifier::when_used_as_spec(spec_identity)]
    pub fn identity() -> (r: Rotation<R>)
        ensures
            r == Self::spec_identity(),
    {
        Rotation { v: Vector::zero(), w: R::one() }
    }

    pub open spec fn spec_inverse(self) -> Rotation<R> {
        Rotation { v: self.v.neg(), w: self.w }
    }

    /// The rotation back: the conjugate of a unit quaternion.
    #[verifier::when_used_as_spec(spec_inverse)]
    pub fn inverse(self) -> (r: Rotation<R>)
        ensures
            r == self.spec_inverse(),
    {
        Rotation { v: self.v.neg(), w: self.w }
    }

    pub open spec fn spec_dot(self, rhs: Rotation<R>) -> R {
        self.v.dot(rhs.v).add(self.w.mul(rhs.w))
    }

    /// Inner product of the coefficients.
    #[verifier::when_used_as_spec(spec_dot)]
    pub fn dot(self, rhs: Rotation<R>) -> (r: R)
        ensures
            r == self.spec_dot(rhs),
    {
        self.v.dot(rhs.v).add(self.w.mul(rhs.w))
    }

    pub open spec fn spec_nlerp(self, rhs: Rotation<R>, t: R) -> Rotation<R> {
        let from = if self.dot(rhs).lt(R::zero()) {
            Rotation { v: self.v.neg(), w: self.w.neg() }
        } else {
            self
        };
        let mixed = Rotation {
            v: from.v.lerp(rhs.v, t),
            w: from.w.mul(R::one().sub(t)).add(rhs.w.mul(t)),
        };
        let shrink = R::one().div(mixed.dot(mixed).sqrt());
        Rotation { v: mixed.v.scale(shrink), w: mixed.w.mul(shrink) }
    }

    /// The rotation at the fraction `t` of the shorter way to another one: the coefficients are
    /// interpolated, then brought back to unit length.
    #[verifier::when_used_as_spec(spec_nlerp)]
    pub fn nlerp(self, rhs: Rotation<R>, t: R) -> (r: Rotation<R>)
        ensures
            r == self.spec_nlerp(rhs, t),
    {
        let from = if self.dot(rhs).lt(R::zero()) {
            Rotation { v: self.v.neg(), w: self.w.neg() }
        } else {
            self
        };
        let mixed = Rotation {
            v: from.v.lerp(rhs.v, t),
            w: from.w.mul(R::one().sub(t)).add(rhs.w.mul(t)),
        };
        let shrink = R::one().div(mixed.dot(mixed).sqrt());
        Rotation { v: mixed.v.scale(shrink), w: mixed.w.mul(shrink) }
    }

    pub open spec fn spec_rotate(self, p: Vector<R>) -> Vector<R> {
        p.scale(self.w.mul(self.w).sub(self.v.dot(self.v))).add(
            self.v.scale(p.dot(self.v).mul(R::decimal(2, 0))),
        ).add(self.v.cross(p).scale(self.w.mul(R::decimal(2, 0))))
    }

    /// The image of `p`.
    #[verifier::when_used_as_spec(spec_rotate)]
    pub fn rotate(self, p: Vector<R>) -> (r: Vector<R>)
        ensures
            r == self.spec_rotate(p),
    {
        p.scale(self.w.mul(self.w).sub(self.v.dot(self.v))).add(
            self.v.scale(p.dot(self.v).mul(R::decimal(2, 0))),
        ).add(self.v.cross(p).scale(self.w.mul(R::decimal(2, 0))))
    }
}

/// A rotation followed by a translation.
#[derive(Clone, Copy, Debug, PartialEq)]
pub struct Pose<R> {
    /// The rotation, applied first.
    pub rotation: Rotation<R>,
    /// The translation, applied second.
    pub translation: Vector<R>,
}

impl<R: Real> Pose<R> {
    pub open spec fn spec_identity() -> Pose<R> {
        Pose { rotation: Rotation::identity(), translation: Vector::zero() }
    }

    /// The pose that leaves every point where it is.
    #[verifier::when_used_as_spec(spec_identity)]
    pub fn identity() -> (r: Pose<R>)
        ensures
            r == Self::spec_identity(),
    {
        Pose { rotation: Rotation::identity(), translation: Vector::zero() }
    }

    pub open spec fn spec_transform_point(self, p: Vector<R>) -> Vector<R> {
        self.rotation.rotate(p).add(self.translation)
    }

    /// A point of the local frame in world coordinates.
    #[verifier::when_used_as_spec(spec_transform_point)]
    pub fn transform_point(self, p: Vector<R>) -> (r: Vector<R>)
        ensures
            r == self.spec_transform_point(p),
    {
        self.rotation.rotate(p).add(self.translation)
    }

    pub open spec fn spec_inverse_transform_point(self, p: Vector<R>) -> Vector<R> {
        self.rotation.inverse().rotate(p.sub(self.translation))
    }

    /// A world point in the coordinates of the local frame.
    #[verifier::when_used_as_spec(spec_inverse_transform_point)]
    pub fn inverse_transform_point(self, p: Vector<R>) -> (r: Vector<R>)
        ensures
            r == self.spec_inverse_transform_point(p),
    {
        self.rotation.inverse().rotate(p.sub(self.translation))
    }
}

} // verus!
