//! Axis-aligned bounding boxes with integer coordinates.

use crate::procedural::Vec3;
use vstd::prelude::*;

verus! {

/// The coordinate of `v` along `axis` (0, 1 or 2).
pub open spec fn coord(v: Vec3<i64>, axis: int) -> int {
    if axis == 0 {
        v.x as int
    } else if axis == 1 {
        v.y as int
    } else {
        v.z as int
    }
}

/// A closed axis-aligned box: the points between `mins` and `maxs` on every axis.
#[derive(Clone, Copy, Debug, PartialEq, Eq, Structural)]
pub struct Aabb {
    pub mins: Vec3<i64>,
    pub maxs: Vec3<i64>,
}

impl Aabb {
    /// The box holds at least one point.
    pub open spec fn valid(&self) -> bool {
        forall|axis: int| 0 <= axis < 3 ==> coord(self.mins, axis) <= coord(self.maxs, axis)
    }

    /// The two closed boxes share a point.
    pub open spec fn intersects_spec(&self, o: &Aabb) -> bool {
        forall|axis: int|
            0 <= axis < 3 ==> coord(self.mins, axis) <= coord(o.maxs, axis) && coord(o.mins, axis)
                <= coord(self.maxs, axis)
    }

    /// Every point of `o` lies in this box.
    pub open spec fn contains_spec(&self, o: &Aabb) -> bool {
        forall|axis: int|
            0 <= axis < 3 ==> coord(self.mins, axis) <= coord(o.mins, axis) && coord(o.maxs, axis)
                <= coord(self.maxs, axis)
    }

    /// The smallest box that holds both boxes.
    pub open spec fn merged_spec(&self, o: &Aabb) -> Aabb {
        Aabb {
            mins: Vec3 {
                x: if self.mins.x <= o.mins.x { self.mins.x } else { o.mins.x },
                y: if self.mins.y <= o.mins.y { self.mins.y } else { o.mins.y },
                z: if self.mins.z <= o.mins.z { self.mins.z } else { o.mins.z },
            },
            maxs: Vec3 {
                x: if self.maxs.x >= o.maxs.x { self.maxs.x } else { o.maxs.x },
                y: if self.maxs.y >= o.maxs.y { self.maxs.y } else { o.maxs.y },
                z: if self.maxs.z >= o.maxs.z { self.maxs.z } else { o.maxs.z },
            },
        }
    }

    /// Twice the coordinate of the box's center along `axis`.
    pub open spec fn center2(&self, axis: int) -> int {
        coord(self.mins, axis) + coord(self.maxs, axis)
    }

    /// Builds the box with the given corners.
    pub fn new(mins: Vec3<i64>, maxs: Vec3<i64>) -> (r: Aabb)
        requires
            mins.x <= maxs.x,
            mins.y <= maxs.y,
            mins.z <= maxs.z,
        ensures
            r == (Aabb { mins, maxs }),
            r.valid(),
    {
        Aabb { mins, maxs }
    }

    /// Whether the two closed boxes share a point.
    pub fn intersects(&self, o: &Aabb) -> (r: bool)
        ensures
            r == self.intersects_spec(o),
    {
        let r = self.mins.x <= o.maxs.x && o.mins.x <= self.maxs.x && self.mins.y <= o.maxs.y
            && o.mins.y <= self.maxs.y && self.mins.z <= o.maxs.z && o.mins.z <= self.maxs.z;
        proof {
            if !r {
                if !(self.mins.x <= o.maxs.x && o.mins.x <= self.maxs.x) {
                    assert(!(coord(self.mins, 0) <= coord(o.maxs, 0) && coord(o.mins, 0) <= coord(self.maxs, 0)));
                } else if !(self.mins.y <= o.maxs.y && o.mins.y <= self.maxs.y) {
                    assert(!(coord(self.mins, 1) <= coord(o.maxs, 1) && coord(o.mins, 1) <= coord(self.maxs, 1)));
                } else {
                    assert(!(coord(self.mins, 2) <= coord(o.maxs, 2) && coord(o.mins, 2) <= coord(self.maxs, 2)));
                }
            }
        }
        r
    }

    /// Whether every point of `o` lies in this box.
    pub fn contains(&self, o: &Aabb) -> (r: bool)
        ensures
            r == self.contains_spec(o),
    {
        let r = self.mins.x <= o.mins.x && o.maxs.x <= self.maxs.x && self.mins.y <= o.mins.y
            && o.maxs.y <= self.maxs.y && self.mins.z <= o.mins.z && o.maxs.z <= self.maxs.z;
        proof {
            if !r {
                if !(self.mins.x <= o.mins.x && o.maxs.x <= self.maxs.x) {
                    assert(!(coord(self.mins, 0) <= coord(o.mins, 0) && coord(o.maxs, 0) <= coord(self.maxs, 0)));
                } else if !(self.mins.y <= o.mins.y && o.maxs.y <= self.maxs.y) {
                    assert(!(coord(self.mins, 1) <= coord(o.mins, 1) && coord(o.maxs, 1) <= coord(self.maxs, 1)));
                } else {
                    assert(!(coord(self.mins, 2) <= coord(o.mins, 2) && coord(o.maxs, 2) <= coord(self.maxs, 2)));
                }
            }
        }
        r
    }

    /// The smallest box that holds both boxes.
    pub fn merged(&self, o: &Aabb) -> (r: Aabb)
        ensures
            r == self.merged_spec(o),
    {
        Aabb {
            mins: Vec3 {
                x: if self.mins.x <= o.mins.x { self.mins.x } else { o.mins.x },
                y: if self.mins.y <= o.mins.y { self.mins.y } else { o.mins.y },
                z: if self.mins.z <= o.mins.z { self.mins.z } else { o.mins.z },
            },
            maxs: Vec3 {
                x: if self.maxs.x >= o.maxs.x { self.maxs.x } else { o.maxs.x },
                y: if self.maxs.y >= o.maxs.y { self.maxs.y } else { o.maxs.y },
                z: if self.maxs.z >= o.maxs.z { self.maxs.z } else { o.maxs.z },
            },
        }
    }

    /// Twice the coordinate of the box's center along `axis`.
    pub fn center2_along(&self, axis: usize) -> (r: i128)
        requires
            axis < 3,
        ensures
            r == self.center2(axis as int),
    {
        if axis == 0 {
            self.mins.x as i128 + self.maxs.x as i128
        } else if axis == 1 {
            self.mins.y as i128 + self.maxs.y as i128
        } else {
            self.mins.z as i128 + self.maxs.z as i128
        }
    }
}

/// The merged box holds both boxes, and is valid when they are.
pub proof fn lemma_merged_contains(a: Aabb, b: Aabb)
    ensures
        a.merged_spec(&b).contains_spec(&a),
        a.merged_spec(&b).contains_spec(&b),
        a.valid() ==> a.merged_spec(&b).valid(),
{
}

/// A valid box meets every box that contains it.
pub proof fn lemma_contained_intersects(outer: Aabb, inner: Aabb)
    requires
        inner.valid(),
        outer.contains_spec(&inner),
    ensures
        outer.intersects_spec(&inner),
        inner.intersects_spec(&outer),
{
}

/// A box that meets a part of a box meets the whole.
pub proof fn lemma_intersects_container(outer: Aabb, inner: Aabb, q: Aabb)
    requires
        outer.contains_spec(&inner),
        inner.intersects_spec(&q),
    ensures
        outer.intersects_spec(&q),
{
}

} // verus!
