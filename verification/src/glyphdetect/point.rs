//! Integer 2D points, axis-aligned bounding boxes, and the conversion
//! between grid coordinates and row-major buffer indices.

use vstd::prelude::*;

verus! {

/// A point (or offset) on the pixel grid.
#[derive(Clone, Copy, Debug, PartialEq, Eq, Structural)]
pub struct Point {
    pub x: i32,
    pub y: i32,
}

impl Point {
    /// The origin.
    pub fn zero() -> (r: Self)
        ensures
            r == (Point { x: 0, y: 0 }),
    {
        Point { x: 0, y: 0 }
    }

    /// Component-wise sum of two points.
    pub fn add(self, other: Self) -> (r: Self)
        requires
            i32::MIN <= self.x + other.x <= i32::MAX,
            i32::MIN <= self.y + other.y <= i32::MAX,
        ensures
            r.x == self.x + other.x,
            r.y == self.y + other.y,
    {
        Point { x: self.x + other.x, y: self.y + other.y }
    }

    /// Component-wise difference of two points.
    pub fn sub(self, other: Self) -> (r: Self)
        requires
            i32::MIN <= self.x - other.x <= i32::MAX,
            i32::MIN <= self.y - other.y <= i32::MAX,
        ensures
            r.x == self.x - other.x,
            r.y == self.y - other.y,
    {
        Point { x: self.x - other.x, y: self.y - other.y }
    }
}

/// An axis-aligned bounding box, inclusive on both corners.
#[derive(Clone, Copy, Debug, PartialEq, Eq, Structural)]
pub struct BoundingBox {
    pub u_left: Point,
    pub l_right: Point,
}

impl BoundingBox {
    /// Corner-wise difference of two boxes.
    pub fn sub(self, other: Self) -> (r: Self)
        requires
            i32::MIN <= self.u_left.x - other.u_left.x <= i32::MAX,
            i32::MIN <= self.u_left.y - other.u_left.y <= i32::MAX,
            i32::MIN <= self.l_right.x - other.l_right.x <= i32::MAX,
            i32::MIN <= self.l_right.y - other.l_right.y <= i32::MAX,
        ensures
            r.u_left.x == self.u_left.x - other.u_left.x,
            r.u_left.y == self.u_left.y - other.u_left.y,
            r.l_right.x == self.l_right.x - other.l_right.x,
            r.l_right.y == self.l_right.y - other.l_right.y,
    {
        BoundingBox { u_left: self.u_left.sub(other.u_left), l_right: self.l_right.sub(other.l_right) }
    }
}

/// The row-major buffer index of a point on a grid of the given width.
pub open spec fn spec_index_of(point: Point, width: int) -> int {
    point.y * width + point.x
}

/// Two points are 8-adjacent: they differ, and each coordinate differs by at most one.
pub open spec fn adj8(a: Point, b: Point) -> bool {
    &&& !(a.x == b.x && a.y == b.y)
    &&& -1 <= b.x - a.x <= 1
    &&& -1 <= b.y - a.y <= 1
}

/// A point's row-major index lies inside the buffer of a width-by-height grid.
pub proof fn lemma_index_in_range(p: Point, width: int, height: int)
    by (nonlinear_arith)
    requires
        0 <= p.x < width,
        0 <= p.y < height,
    ensures
        0 <= spec_index_of(p, width) < width * height,
{
}

/// Distinct in-bounds points have distinct row-major indices.
pub proof fn lemma_index_injective(p: Point, q: Point, width: int)
    by (nonlinear_arith)
    requires
        0 <= p.x < width,
        0 <= q.x < width,
        0 <= p.y,
        0 <= q.y,
        spec_index_of(p, width) == spec_index_of(q, width),
    ensures
        p == q,
{
}

/// Converts a row-major buffer index back into grid coordinates.
pub fn get_pos(index: i32, width: i32) -> (r: Point)
    requires
        width > 0,
        index >= 0,
    ensures
        r.x == index as int % width as int,
        r.y == index as int / width as int,
        spec_index_of(r, width as int) == index,
        0 <= r.x < width,
        0 <= r.y,
{
    let x = index % width;
    let y = index / width;
    proof {
        vstd::arithmetic::div_mod::lemma_fundamental_div_mod(index as int, width as int);
        assert(x == index as int % width as int);
        assert(y == index as int / width as int);
        assert((index as int / width as int) * width as int + index as int % width as int
            == index as int) by (nonlinear_arith)
            requires
                index >= 0,
                width > 0,
        ;
    }
    Point { x, y }
}

/// Converts grid coordinates into a row-major buffer index.
pub fn get_index(point: Point, width: i32) -> (r: usize)
    requires
        width > 0,
        0 <= point.x < width,
        0 <= point.y,
        spec_index_of(point, width as int) <= i32::MAX,
    ensures
        r == spec_index_of(point, width as int),
{
    proof {
        lemma_mul_nonneg_i32(point.y as int, width as int);
    }
    (point.y * width + point.x) as usize
}

proof fn lemma_mul_nonneg_i32(a: int, b: int)
    by (nonlinear_arith)
    requires
        0 <= a,
        0 <= b,
    ensures
        0 <= a * b,
        a >= 1 ==> b <= a * b,
{
}

/// The fixed order in which the eight neighbors of a pixel are visited:
/// right, up, left, down, down-right, up-right, up-left, down-left.
pub open spec fn spec_surrounding(i: int) -> Point {
    if i == 0 {
        Point { x: 1, y: 0 }
    } else if i == 1 {
        Point { x: 0, y: -1i32 }
    } else if i == 2 {
        Point { x: -1i32, y: 0 }
    } else if i == 3 {
        Point { x: 0, y: 1 }
    } else if i == 4 {
        Point { x: 1, y: 1 }
    } else if i == 5 {
        Point { x: 1, y: -1i32 }
    } else if i == 6 {
        Point { x: -1i32, y: -1i32 }
    } else {
        Point { x: -1i32, y: 1 }
    }
}

/// Returns the `i`-th of the eight neighbor offsets.
pub fn surrounding(i: usize) -> (r: Point)
    requires
        i < 8,
    ensures
        r == spec_surrounding(i as int),
{
    if i == 0 {
        Point { x: 1, y: 0 }
    } else if i == 1 {
        Point { x: 0, y: -1i32 }
    } else if i == 2 {
        Point { x: -1i32, y: 0 }
    } else if i == 3 {
        Point { x: 0, y: 1 }
    } else if i == 4 {
        Point { x: 1, y: 1 }
    } else if i == 5 {
        Point { x: 1, y: -1i32 }
    } else if i == 6 {
        Point { x: -1i32, y: -1i32 }
    } else {
        Point { x: -1i32, y: 1 }
    }
}

/// The eight neighbor offsets are exactly the offsets between 8-adjacent points.
pub proof fn lemma_surrounding_complete(a: Point, b: Point)
    requires
        adj8(a, b),
    ensures
        exists|i: int|
            0 <= i < 8 && b.x - a.x == spec_surrounding(i).x && b.y - a.y == spec_surrounding(i).y,
{
    let dx = b.x - a.x;
    let dy = b.y - a.y;
    if dx == 1 && dy == 0 {
        assert(b.x - a.x == spec_surrounding(0).x && b.y - a.y == spec_surrounding(0).y);
    } else if dx == 0 && dy == -1 {
        assert(b.x - a.x == spec_surrounding(1).x && b.y - a.y == spec_surrounding(1).y);
    } else if dx == -1 && dy == 0 {
        assert(b.x - a.x == spec_surrounding(2).x && b.y - a.y == spec_surrounding(2).y);
    } else if dx == 0 && dy == 1 {
        assert(b.x - a.x == spec_surrounding(3).x && b.y - a.y == spec_surrounding(3).y);
    } else if dx == 1 && dy == 1 {
        assert(b.x - a.x == spec_surrounding(4).x && b.y - a.y == spec_surrounding(4).y);
    } else if dx == 1 && dy == -1 {
        assert(b.x - a.x == spec_surrounding(5).x && b.y - a.y == spec_surrounding(5).y);
    } else if dx == -1 && dy == -1 {
        assert(b.x - a.x == spec_surrounding(6).x && b.y - a.y == spec_surrounding(6).y);
    } else {
        assert(dx == -1 && dy == 1);
        assert(b.x - a.x == spec_surrounding(7).x && b.y - a.y == spec_surrounding(7).y);
    }
}

} // verus!
