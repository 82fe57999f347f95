//! Points in the plane.
//!
//! All geometry in this crate works on one coordinate space at a time; points
//! from different spaces (say, canvas space and scene space) should not be
//! mixed. The marker types in the crate root name those spaces for callers
//! that want to keep them apart by convention.

use crate::COORD_LIMIT;
use vstd::prelude::*;

verus! {

/// A point in two-dimensional space with `i64` coordinates.
#[derive(Clone, Copy, Debug, PartialEq, Eq, Hash, Structural)]
pub struct Point2 {
    /// The horizontal coordinate.
    pub x: i64,
    /// The vertical coordinate.
    pub y: i64,
}

impl Point2 {
    /// Both coordinates lie within `COORD_LIMIT`, so that signed doubled
    /// triangle areas over such points fit in an `i64`.
    pub open spec fn in_bounds(self) -> bool {
        &&& -(COORD_LIMIT as int) <= self.x <= COORD_LIMIT as int
        &&& -(COORD_LIMIT as int) <= self.y <= COORD_LIMIT as int
    }
}

/// Convenience function for creating points.
#[inline]
pub fn point2(x: i64, y: i64) -> (r: Point2)
    ensures
        r == (Point2 { x, y }),
{
    Point2 { x, y }
}

/// `p` precedes `q`, or equals it, in the lexicographic order by `(x, y)`.
pub open spec fn lex_le(p: Point2, q: Point2) -> bool {
    p.x < q.x || (p.x == q.x && p.y <= q.y)
}

/// Every point of the sequence lies within `COORD_LIMIT`.
pub open spec fn seq_in_bounds(s: Seq<Point2>) -> bool {
    forall|i: int| 0 <= i < s.len() ==> s[i].in_bounds()
}

} // verus!
