//! Directed line segments and exact orientation predicates.
//!
//! The signed doubled area of the triangle spanned by three points is the
//! single source of truth for every orientation query here.

use crate::point::Point2;
use crate::COORD_LIMIT;
use vstd::prelude::*;

verus! {

/// The signed doubled area of the triangle `(a, b, c)`: positive when `c`
/// lies left of the directed line from `a` to `b`, zero when the three points
/// are collinear, negative when `c` lies right of it.
pub open spec fn spec_area2(a: Point2, b: Point2, c: Point2) -> int {
    (b.x - a.x) * (c.y - a.y) - (c.x - a.x) * (b.y - a.y)
}

/// Bound on a product from bounds on its factors.
pub proof fn lemma_mul_bound(x: int, y: int, bx: int, by: int)
    by (nonlinear_arith)
    requires
        0 <= bx,
        0 <= by,
        -bx <= x <= bx,
        -by <= y <= by,
    ensures
        -(bx * by) <= x * y <= bx * by,
{
}

/// Compute the signed doubled area of the triangle `(a, b, c)`.
pub fn area2(a: Point2, b: Point2, c: Point2) -> (r: i64)
    requires
        a.in_bounds(),
        b.in_bounds(),
        c.in_bounds(),
    ensures
        r == spec_area2(a, b, c),
        -8_000_000_000_000_000_000 <= r <= 8_000_000_000_000_000_000,
{
    let dx1: i64 = b.x - a.x;
    let dy1: i64 = c.y - a.y;
    let dx2: i64 = c.x - a.x;
    let dy2: i64 = b.y - a.y;
    proof {
        lemma_mul_bound(dx1 as int, dy1 as int, 2 * COORD_LIMIT as int, 2 * COORD_LIMIT as int);
        lemma_mul_bound(dx2 as int, dy2 as int, 2 * COORD_LIMIT as int, 2 * COORD_LIMIT as int);
    }
    dx1 * dy1 - dx2 * dy2
}

/// The direction a point lies relative to a line. Returned by
/// `Line::relative_direction_of`.
#[derive(Clone, Copy, Debug, PartialEq, Eq, Hash, Structural)]
pub enum RelativeDirection {
    /// The point lies left relative to the line.
    Left,
    /// The point is collinear with the line.
    Collinear,
    /// The point lies right relative to the line.
    Right,
}

/// A line between two points.
#[derive(Clone, Copy, Debug, PartialEq, Eq, Hash, Structural)]
pub struct Line {
    /// The first point.
    pub a: Point2,
    /// The second point.
    pub b: Point2,
}

/// Convenience function for creating lines.
#[inline]
pub fn line(a: Point2, b: Point2) -> (r: Line)
    ensures
        r.a == a,
        r.b == b,
{
    Line { a, b }
}

impl Line {
    /// Both endpoints lie within `COORD_LIMIT`.
    pub open spec fn in_bounds(self) -> bool {
        self.a.in_bounds() && self.b.in_bounds()
    }

    /// `p` lies strictly left of this directed line.
    pub open spec fn is_left_spec(self, p: Point2) -> bool {
        spec_area2(self.a, self.b, p) > 0
    }

    /// `p` is collinear with this line.
    pub open spec fn is_collinear_spec(self, p: Point2) -> bool {
        spec_area2(self.a, self.b, p) == 0
    }

    /// `p` lies strictly right of this directed line.
    pub open spec fn is_right_spec(self, p: Point2) -> bool {
        spec_area2(self.a, self.b, p) < 0
    }

    /// The direction of `p` relative to this line, as an enum.
    pub open spec fn dir_spec(self, p: Point2) -> RelativeDirection {
        if self.is_left_spec(p) {
            RelativeDirection::Left
        } else if self.is_collinear_spec(p) {
            RelativeDirection::Collinear
        } else {
            RelativeDirection::Right
        }
    }

    /// `p` lies on this line segment: collinear with it, and within the
    /// segment's coordinate range along the axis on which the segment is not
    /// degenerate (the vertical axis for vertical segments, the horizontal
    /// axis otherwise), endpoints included.
    pub open spec fn is_on_spec(self, p: Point2) -> bool {
        &&& self.is_collinear_spec(p)
        &&& if self.a.x == self.b.x {
            let lo = if self.a.y < self.b.y { self.a.y } else { self.b.y };
            let hi = if self.a.y > self.b.y { self.a.y } else { self.b.y };
            lo <= p.y <= hi
        } else {
            let lo = if self.a.x < self.b.x { self.a.x } else { self.b.x };
            let hi = if self.a.x > self.b.x { self.a.x } else { self.b.x };
            lo <= p.x <= hi
        }
    }

    /// The two segments properly intersect: no endpoint of either is
    /// collinear with the other, and each segment's endpoints straddle the
    /// other segment.
    pub open spec fn intersects_spec(self, other: Line) -> bool {
        &&& !self.is_collinear_spec(other.a)
        &&& !self.is_collinear_spec(other.b)
        &&& !other.is_collinear_spec(self.a)
        &&& !other.is_collinear_spec(self.b)
        &&& (self.is_left_spec(other.a) != self.is_left_spec(other.b))
        &&& (other.is_left_spec(self.a) != other.is_left_spec(self.b))
    }

    /// The two segments properly intersect, or an endpoint of one lies on the
    /// other.
    pub open spec fn improperly_intersects_spec(self, other: Line) -> bool {
        ||| self.intersects_spec(other)
        ||| self.is_on_spec(other.a)
        ||| self.is_on_spec(other.b)
        ||| other.is_on_spec(self.a)
        ||| other.is_on_spec(self.b)
    }

    /// Create a new line between the given points.
    #[inline]
    pub fn new(a: Point2, b: Point2) -> (r: Line)
        ensures
            r.a == a,
            r.b == b,
    {
        line(a, b)
    }

    /// Get the direction of the point relative to this line.
    pub fn relative_direction_of(&self, point: Point2) -> (r: RelativeDirection)
        requires
            self.in_bounds(),
            point.in_bounds(),
        ensures
            r == self.dir_spec(point),
    {
        let det = area2(self.a, self.b, point);
        if det > 0 {
            RelativeDirection::Left
        } else if det == 0 {
            RelativeDirection::Collinear
        } else {
            RelativeDirection::Right
        }
    }

    /// Is the given point on the left of this line?
    pub fn is_left(&self, point: Point2) -> (r: bool)
        requires
            self.in_bounds(),
            point.in_bounds(),
        ensures
            r == self.is_left_spec(point),
    {
        area2(self.a, self.b, point) > 0
    }

    /// Is the given point on the left of this line or collinear with it?
    pub fn is_left_or_collinear(&self, point: Point2) -> (r: bool)
        requires
            self.in_bounds(),
            point.in_bounds(),
        ensures
            r == (self.is_left_spec(point) || self.is_collinear_spec(point)),
    {
        area2(self.a, self.b, point) >= 0
    }

    /// Is the given point collinear with this line?
    pub fn is_collinear(&self, point: Point2) -> (r: bool)
        requires
            self.in_bounds(),
            point.in_bounds(),
        ensures
            r == self.is_collinear_spec(point),
    {
        area2(self.a, self.b, point) == 0
    }

    /// Is the given point on the right of this line?
    pub fn is_right(&self, point: Point2) -> (r: bool)
        requires
            self.in_bounds(),
            point.in_bounds(),
        ensures
            r == self.is_right_spec(point),
    {
        area2(self.a, self.b, point) < 0
    }

    /// Is the given point on the right of this line or collinear with it?
    pub fn is_right_or_collinear(&self, point: Point2) -> (r: bool)
        requires
            self.in_bounds(),
            point.in_bounds(),
        ensures
            r == (self.is_right_spec(point) || self.is_collinear_spec(point)),
    {
        area2(self.a, self.b, point) <= 0
    }

    /// Is the given point on this line segment? That is, not just collinear,
    /// but also between `self.a` and `self.b`?
    pub fn is_on(&self, point: Point2) -> (r: bool)
        requires
            self.in_bounds(),
            point.in_bounds(),
        ensures
            r == self.is_on_spec(point),
    {
        if !self.is_collinear(point) {
            return false;
        }
        // If this line segment is vertical, check that point.y is between a.y
        // and b.y. Otherwise check that point.x is between a.x and b.x.
        if self.a.x == self.b.x {
            let lo = crate::num::min(self.a.y, self.b.y);
            let hi = crate::num::max(self.a.y, self.b.y);
            lo <= point.y && point.y <= hi
        } else {
            let lo = crate::num::min(self.a.x, self.b.x);
            let hi = crate::num::max(self.a.x, self.b.x);
            lo <= point.x && point.x <= hi
        }
    }

    /// Does this line segment (properly) intersect with the other line
    /// segment?
    pub fn intersects(&self, other: &Line) -> (r: bool)
        requires
            self.in_bounds(),
            other.in_bounds(),
        ensures
            r == self.intersects_spec(*other),
    {
        // If any points from a line segment are collinear with the other line
        // segment, then they cannot properly intersect.
        if self.is_collinear(other.a) || self.is_collinear(other.b) || other.is_collinear(self.a)
            || other.is_collinear(self.b) {
            return false;
        }
        (self.is_left(other.a) != self.is_left(other.b)) && (other.is_left(self.a) != other.is_left(
            self.b,
        ))
    }

    /// Does this line segment improperly intersect with the other line
    /// segment?
    pub fn improperly_intersects(&self, other: &Line) -> (r: bool)
        requires
            self.in_bounds(),
            other.in_bounds(),
        ensures
            r == self.improperly_intersects_spec(*other),
    {
        self.intersects(other) || self.is_on(other.a) || self.is_on(other.b) || other.is_on(self.a)
            || other.is_on(self.b)
    }
}

impl crate::aabb::ToAabb for Line {
    open spec fn aabb_ready(&self) -> bool {
        self.in_bounds()
    }

    open spec fn is_aabb_of(&self, r: crate::aabb::Aabb) -> bool {
        &&& r.spec_min().x == if self.a.x < self.b.x {
            self.a.x
        } else {
            self.b.x
        }
        &&& r.spec_min().y == if self.a.y < self.b.y {
            self.a.y
        } else {
            self.b.y
        }
        &&& r.spec_max().x == if self.a.x > self.b.x {
            self.a.x
        } else {
            self.b.x
        }
        &&& r.spec_max().y == if self.a.y > self.b.y {
            self.a.y
        } else {
            self.b.y
        }
    }

    fn to_aabb(&self) -> (r: crate::aabb::Aabb) {
        let min = crate::point::point2(
            crate::num::min(self.a.x, self.b.x),
            crate::num::min(self.a.y, self.b.y),
        );
        let max = crate::point::point2(
            crate::num::max(self.a.x, self.b.x),
            crate::num::max(self.a.y, self.b.y),
        );
        crate::aabb::Aabb::new(min, max)
    }
}

} // verus!
