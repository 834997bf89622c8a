//! An integer 2D point with component-wise arithmetic.

use vstd::prelude::*;

verus! {

/// A point on the integer plane.
#[derive(Clone, Copy, Debug, PartialEq, Eq, Hash, Structural)]
pub struct Point {
    pub x: i32,
    pub y: i32,
}

impl Point {
    /// The origin.
    pub fn zero() -> (r: Self)
        ensures
            r == (Point { x: 0, y: 0 }),
    {
        Point { x: 0, y: 0 }
    }

    /// Builds a point from its coordinates.
    pub fn from(x: i32, y: i32) -> (r: Self)
        ensures
            r == (Point { x, y }),
    {
        Point { x, y }
    }

    /// Component-wise sum.
    pub fn add(self, other: Self) -> (r: Self)
        requires
            i32::MIN <= self.x + other.x <= i32::MAX,
            i32::MIN <= self.y + other.y <= i32::MAX,
        ensures
            r.x == self.x + other.x,
            r.y == self.y + other.y,
    {
        Point { x: self.x + other.x, y: self.y + other.y }
    }

    /// Adds another point in place.
    pub fn add_assign(&mut self, rhs: Self)
        requires
            i32::MIN <= old(self).x + rhs.x <= i32::MAX,
            i32::MIN <= old(self).y + rhs.y <= i32::MAX,
        ensures
            final(self).x == old(self).x + rhs.x,
            final(self).y == old(self).y + rhs.y,
    {
        *self = Point { x: self.x + rhs.x, y: self.y + rhs.y };
    }

    /// Component-wise difference.
    pub fn sub(self, other: Self) -> (r: Self)
        requires
            i32::MIN <= self.x - other.x <= i32::MAX,
            i32::MIN <= self.y - other.y <= i32::MAX,
        ensures
            r.x == self.x - other.x,
            r.y == self.y - other.y,
    {
        Point { x: self.x - other.x, y: self.y - other.y }
    }

    /// Component-wise product with another point.
    pub fn mul(self, other: Self) -> (r: Self)
        requires
            i32::MIN <= self.x * other.x <= i32::MAX,
            i32::MIN <= self.y * other.y <= i32::MAX,
        ensures
            r.x == self.x * other.x,
            r.y == self.y * other.y,
    {
        Point { x: self.x * other.x, y: self.y * other.y }
    }

    /// Scales both components by a factor.
    pub fn scale(self, other: i32) -> (r: Self)
        requires
            i32::MIN <= self.x * other <= i32::MAX,
            i32::MIN <= self.y * other <= i32::MAX,
        ensures
            r.x == self.x * other,
            r.y == self.y * other,
    {
        Point { x: self.x * other, y: self.y * other }
    }
}

/// Returns the `i`-th of the eight neighbor offsets around a point:
/// right, up, left, down, down-right, up-right, up-left, down-left.
pub fn surrounding(i: usize) -> (r: Point)
    requires
        i < 8,
    ensures
        r.x == crate::glyphdetect::point::spec_surrounding(i as int).x,
        r.y == crate::glyphdetect::point::spec_surrounding(i as int).y,
{
    let p = crate::glyphdetect::point::surrounding(i);
    Point { x: p.x, y: p.y }
}

} // verus!
