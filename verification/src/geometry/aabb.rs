//! Axis-aligned boxes.
use vstd::prelude::*;
use crate::math::Vector;
use crate::scalar::Real;

verus! {

/// A box whose sides are parallel to the axes.
#[derive(Clone, Copy, Debug, PartialEq)]
pub struct Aabb<R> {
    /// The corner with the smallest coordinates.
    pub mins: Vector<R>,
    /// The corner with the largest coordinates.
    pub maxs: Vector<R>,
}

impl<R: Real> Aabb<R> {
    pub open spec fn spec_new(mins: Vector<R>, maxs: Vector<R>) -> Aabb<R> {
        Aabb { mins, maxs }
    }

    /// The box between two corners.
    #[verifier::when_used_as_spec(spec_new)]
    pub fn new(mins: Vector<R>, maxs: Vector<R>) -> (b: Aabb<R>)
        ensures
            b == Self::spec_new(mins, maxs),
    {
        Aabb { mins, maxs }
    }

    pub open spec fn spec_intersects(self, other: Aabb<R>) -> bool {
        &&& self.mins.x.le(other.maxs.x) && other.mins.x.le(self.maxs.x)
        &&& self.mins.y.le(other.maxs.y) && other.mins.y.le(self.maxs.y)
        &&& self.mins.z.le(other.maxs.z) && other.mins.z.le(self.maxs.z)
    }

    /// Whether two boxes have a point in common.
    #[verifier::when_used_as_spec(spec_intersects)]
    pub fn intersects(self, other: Aabb<R>) -> (b: bool)
        ensures
            b == self.spec_intersects(other),
    {
        self.mins.x.le(other.maxs.x) && other.mins.x.le(self.maxs.x) && self.mins.y.le(other.maxs.y)
            && other.mins.y.le(self.maxs.y) && self.mins.z.le(other.maxs.z) && other.mins.z.le(
            self.maxs.z,
        )
    }

    pub open spec fn spec_union(self, other: Aabb<R>) -> Aabb<R> {
        Aabb {
            mins: Vector {
                x: self.mins.x.min(other.mins.x),
                y: self.mins.y.min(other.mins.y),
                z: self.mins.z.min(other.mins.z),
            },
            maxs: Vector {
                x: self.maxs.x.max(other.maxs.x),
                y: self.maxs.y.max(other.maxs.y),
                z: self.maxs.z.max(other.maxs.z),
            },
        }
    }

    /// The smallest box around two.
    #[verifier::when_used_as_spec(spec_union)]
    pub fn union(self, other: Aabb<R>) -> (b: Aabb<R>)
        ensures
            b == self.spec_union(other),
    {
        Aabb {
            mins: Vector {
                x: self.mins.x.min(other.mins.x),
                y: self.mins.y.min(other.mins.y),
                z: self.mins.z.min(other.mins.z),
            },
            maxs: Vector {
                x: self.maxs.x.max(other.maxs.x),
                y: self.maxs.y.max(other.maxs.y),
                z: self.maxs.z.max(other.maxs.z),
            },
        }
    }

    pub open spec fn spec_center_axis(self, axis: usize) -> R {
        if axis == 0 {
            self.mins.x.add(self.maxs.x).mul(R::decimal(5, 1))
        } else if axis == 1 {
            self.mins.y.add(self.maxs.y).mul(R::decimal(5, 1))
        } else {
            self.mins.z.add(self.maxs.z).mul(R::decimal(5, 1))
        }
    }

    /// The middle of the box along an axis.
    #[verifier::when_used_as_spec(spec_center_axis)]
    pub fn center_axis(self, axis: usize) -> (c: R)
        ensures
            c == self.spec_center_axis(axis),
    {
        if axis == 0 {
            self.mins.x.add(self.maxs.x).mul(R::decimal(5, 1))
        } else if axis == 1 {
            self.mins.y.add(self.maxs.y).mul(R::decimal(5, 1))
        } else {
            self.mins.z.add(self.maxs.z).mul(R::decimal(5, 1))
        }
    }

    pub open spec fn spec_extent_axis(self, axis: usize) -> R {
        if axis == 0 {
            self.maxs.x.sub(self.mins.x)
        } else if axis == 1 {
            self.maxs.y.sub(self.mins.y)
        } else {
            self.maxs.z.sub(self.mins.z)
        }
    }

    /// The length of the box along an axis.
    #[verifier::when_used_as_spec(spec_extent_axis)]
    pub fn extent_axis(self, axis: usize) -> (e: R)
        ensures
            e == self.spec_extent_axis(axis),
    {
        if axis == 0 {
            self.maxs.x.sub(self.mins.x)
        } else if axis == 1 {
            self.maxs.y.sub(self.mins.y)
        } else {
            self.maxs.z.sub(self.mins.z)
        }
    }

    pub open spec fn spec_longest_axis(self) -> usize {
        let x = self.extent_axis(0);
        let y = self.extent_axis(1);
        let z = self.extent_axis(2);
        if y.le(x) && z.le(x) {
            0
        } else if z.le(y) {
            1
        } else {
            2
        }
    }

    /// The axis along which the box is longest; the first one of several.
    #[verifier::when_used_as_spec(spec_longest_axis)]
    pub fn longest_axis(self) -> (axis: usize)
        ensures
            axis == self.spec_longest_axis(),
    {
        let x = self.extent_axis(0);
        let y = self.extent_axis(1);
        let z = self.extent_axis(2);
        if y.le(x) && z.le(x) {
            0
        } else if z.le(y) {
            1
        } else {
            2
        }
    }
}

/// A box that meets a third one still does so after it is united with another.
pub proof fn lemma_union_intersects<R: Real>(a: Aabb<R>, b: Aabb<R>, q: Aabb<R>)
    requires
        a.intersects(q) || b.intersects(q),
    ensures
        a.union(b).intersects(q),
{
    let u = a.union(b);
    let hit = if a.intersects(q) {
        a
    } else {
        b
    };
    let miss = if a.intersects(q) {
        b
    } else {
        a
    };
    R::law_min_le(hit.mins.x, miss.mins.x, q.maxs.x);
    R::law_min_le(hit.mins.y, miss.mins.y, q.maxs.y);
    R::law_min_le(hit.mins.z, miss.mins.z, q.maxs.z);
    R::law_le_max(hit.maxs.x, miss.maxs.x, q.mins.x);
    R::law_le_max(hit.maxs.y, miss.maxs.y, q.mins.y);
    R::law_le_max(hit.maxs.z, miss.maxs.z, q.mins.z);
}

} // verus!
