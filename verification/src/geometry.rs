//! Points and axis-aligned boxes on the integer grid.
//!
//! Coordinates are whole numbers of the caller's smallest unit of length.

use vstd::prelude::*;

verus! {

/// A point of the plane.
#[derive(Debug, Clone, Copy, PartialEq, Eq, Structural)]
pub struct Point {
    pub x: i32,
    pub y: i32,
}

impl Point {
    pub fn new(x: i32, y: i32) -> (point: Point)
        ensures
            point == (Point { x, y }),
    {
        Point { x, y }
    }
}

/// An axis-aligned box that includes its border. A box whose lowest corner is
/// not below and left of its highest corner holds no point.
#[derive(Debug, Clone, Copy, PartialEq, Eq, Structural)]
pub struct Aabb {
    min: Point,
    max: Point,
}

impl Aabb {
    /// Lowest corner, as a specification.
    pub closed spec fn lo(self) -> Point {
        self.min
    }

    /// Highest corner, as a specification.
    pub closed spec fn hi(self) -> Point {
        self.max
    }

    /// Whether the point lies in the box, border included.
    pub open spec fn contains(self, p: Point) -> bool {
        &&& self.lo().x <= p.x <= self.hi().x
        &&& self.lo().y <= p.y <= self.hi().y
    }

    /// Whether the two boxes overlap on both axes, borders included.
    pub open spec fn overlaps(self, rhs: Aabb) -> bool {
        &&& self.lo().x <= rhs.hi().x
        &&& self.lo().y <= rhs.hi().y
        &&& self.hi().x >= rhs.lo().x
        &&& self.hi().y >= rhs.lo().y
    }

    pub fn new(min: Point, max: Point) -> (aabb: Aabb)
        ensures
            aabb.lo() == min,
            aabb.hi() == max,
    {
        Aabb { min, max }
    }

    pub fn min(&self) -> (min: Point)
        ensures
            min == self.lo(),
    {
        self.min
    }

    pub fn max(&self) -> (max: Point)
        ensures
            max == self.hi(),
    {
        self.max
    }

    pub fn intersects(&self, rhs: &Aabb) -> (hit: bool)
        ensures
            hit == self.overlaps(*rhs),
    {
        self.min.x <= rhs.max.x && self.min.y <= rhs.max.y && self.max.x >= rhs.min.x
            && self.max.y >= rhs.min.y
    }

    /// Whether the point lies in the box, border included.
    pub fn includes(&self, p: Point) -> (hit: bool)
        ensures
            hit == self.contains(p),
    {
        self.min.x <= p.x && p.x <= self.max.x && self.min.y <= p.y && p.y <= self.max.y
    }

    /// Two boxes that share a point overlap; and two boxes that overlap, each
    /// holding some point, share one.
    pub proof fn overlaps_is_shared_point(a: Aabb, b: Aabb)
        requires
            a.lo().x <= a.hi().x,
            a.lo().y <= a.hi().y,
            b.lo().x <= b.hi().x,
            b.lo().y <= b.hi().y,
        ensures
            a.overlaps(b) <==> exists|p: Point| a.contains(p) && b.contains(p),
    {
        if a.overlaps(b) {
            let x = if a.lo().x >= b.lo().x { a.lo().x } else { b.lo().x };
            let y = if a.lo().y >= b.lo().y { a.lo().y } else { b.lo().y };
            let p = Point { x, y };
            assert(a.contains(p) && b.contains(p));
        }
    }
}

} // verus!
