//! Points and axis-aligned rectangles on an integer grid.
use vstd::prelude::*;

verus! {

/// A point, or a displacement, on the integer grid.
#[derive(Clone, Copy, Debug, PartialEq, Eq, Structural)]
pub struct Vec2 {
    pub x: i64,
    pub y: i64,
}

impl Vec2 {
    pub fn new(x: i64, y: i64) -> (r: Vec2)
        ensures
            r.x == x,
            r.y == y,
    {
        Vec2 { x, y }
    }
}

/// An axis-aligned rectangle given by its minimum corner and its extent.
#[derive(Clone, Copy, Debug, PartialEq, Eq, Structural)]
pub struct Rectangle {
    pub x: i64,
    pub y: i64,
    pub width: i64,
    pub height: i64,
}

impl Rectangle {
    /// Non-negative extent, and a maximum corner that is itself an `i64`.
    pub open spec fn wf(self) -> bool {
        &&& self.width >= 0
        &&& self.height >= 0
        &&& self.x + self.width <= i64::MAX
        &&& self.y + self.height <= i64::MAX
    }

    /// Positive extent on both axes.
    pub open spec fn solid(self) -> bool {
        self.width >= 1 && self.height >= 1
    }

    /// Closed containment: points on the edges are inside.
    pub open spec fn holds(self, p: Vec2) -> bool {
        &&& self.x <= p.x
        &&& p.x <= self.x + self.width
        &&& self.y <= p.y
        &&& p.y <= self.y + self.height
    }

    /// Strict overlap: rectangles that only touch along an edge do not meet.
    pub open spec fn meets(self, o: Rectangle) -> bool {
        &&& self.x < o.x + o.width
        &&& self.x + self.width > o.x
        &&& self.y < o.y + o.height
        &&& self.y + self.height > o.y
    }

    /// The point lies in the open interior.
    pub open spec fn strictly_holds(self, p: Vec2) -> bool {
        &&& self.x < p.x
        &&& p.x < self.x + self.width
        &&& self.y < p.y
        &&& p.y < self.y + self.height
    }

    /// `inner` lies within `self`.
    pub open spec fn encloses(self, inner: Rectangle) -> bool {
        &&& self.x <= inner.x
        &&& inner.x + inner.width <= self.x + self.width
        &&& self.y <= inner.y
        &&& inner.y + inner.height <= self.y + self.height
    }

    pub fn new(x: i64, y: i64, width: i64, height: i64) -> (r: Rectangle)
        ensures
            r == (Rectangle { x, y, width, height }),
    {
        Rectangle { x, y, width, height }
    }

    pub fn contains(&self, point: Vec2) -> (r: bool)
        ensures
            r == self.holds(point),
    {
        let px = point.x as i128;
        let py = point.y as i128;
        let x = self.x as i128;
        let y = self.y as i128;
        px >= x && px <= x + self.width as i128 && py >= y && py <= y + self.height as i128
    }

    pub fn intersects(&self, other: &Rectangle) -> (r: bool)
        ensures
            r == self.meets(*other),
    {
        let ax = self.x as i128;
        let ay = self.y as i128;
        let bx = other.x as i128;
        let by = other.y as i128;
        ax < bx + other.width as i128 && ax + self.width as i128 > bx && ay < by
            + other.height as i128 && ay + self.height as i128 > by
    }

    pub fn min_x(&self) -> (r: i64)
        ensures
            r == self.x,
    {
        self.x
    }

    pub fn max_x(&self) -> (r: i64)
        requires
            self.wf(),
        ensures
            r == self.x + self.width,
    {
        self.x + self.width
    }

    pub fn min_y(&self) -> (r: i64)
        ensures
            r == self.y,
    {
        self.y
    }

    pub fn max_y(&self) -> (r: i64)
        requires
            self.wf(),
        ensures
            r == self.y + self.height,
    {
        self.y + self.height
    }
}

} // verus!
