//! Spatial index over polygon boundaries: answers containment, nearest-edge
//! and nearest-vertex queries for batches of reference points.
//!
//! Coordinates are integers on a fixed grid; all geometry is computed in
//! exact integer arithmetic, so every query result is exact.

#![verifier::loop_isolation(false)]

use vstd::prelude::*;

pub mod batch;
pub mod distance;
pub mod laws;
pub mod geometry;
pub mod intersections;
pub mod order;
pub mod tree;

pub use crate::batch::distances_nearest_edges;
pub use crate::batch::distances_nearest_vertices;
pub use crate::batch::points_are_inside;
pub use crate::distance::get_distance_edge;
pub use crate::distance::get_distance_vertex;
pub use crate::distance::nearest_edge_distance;
pub use crate::distance::nearest_vertex_distance;
pub use crate::distance::EdgeDist;
pub use crate::distance::VertexDist;
pub use crate::geometry::crosses;
pub use crate::geometry::distance_squared;
pub use crate::intersections::num_intersections;
pub use crate::intersections::point_is_inside;
pub use crate::tree::build_search_tree;
pub use crate::tree::build_search_tree_h;
pub use crate::tree::create_polygon;
pub use crate::tree::BuildError;
pub use crate::tree::Edge;
pub use crate::tree::Node;
pub use crate::tree::Point;
pub use crate::tree::Tree;

verus! {

/// Largest magnitude allowed for a coordinate or height value.
///
/// All intermediate quantities (squared distances, cross products, and the
/// cross-multiplied comparisons of rational squared distances) then fit in
/// `i128` with room to spare.
pub const COORD_LIMIT: i64 = 500_000;

/// A coordinate pair within bounds, fit for exact arithmetic.
pub open spec fn coord_ok(x: int, y: int) -> bool {
    -(COORD_LIMIT as int) <= x <= COORD_LIMIT as int
        && -(COORD_LIMIT as int) <= y <= COORD_LIMIT as int
}

} // verus!
