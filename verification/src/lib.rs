//! A verified two-dimensional geometry kernel: exact orientation predicates,
//! polygons with ear-clipping triangulation, convex hulls, and an
//! axis-aligned-bounding-box tree for overlap queries.

use vstd::prelude::*;

pub mod aabb;
pub mod convex_polygon;
pub mod line;
pub mod num;
pub mod point;
pub mod polygon;
pub mod rng;
pub mod tool;

verus! {

/// Coordinates are kept within this bound so that the doubled signed area of
/// any triangle, and the area of any bounding box, fits in an `i64`.
pub const COORD_LIMIT: i64 = 1_000_000_000;

/// Marker for coordinates in canvas space.
///
/// Geometry in different coordinate spaces should not be mixed without an
/// explicit transform. The geometric types here carry no space tag of their
/// own; callers that juggle several spaces can use these markers to name
/// which space a container of geometry belongs to.
#[derive(Clone, Copy, Debug, Default, PartialEq, Eq, Hash, Structural)]
pub struct CanvasSpace;

/// Marker for coordinates in scene space.
#[derive(Clone, Copy, Debug, Default, PartialEq, Eq, Hash, Structural)]
pub struct SceneSpace;

} // verus!
