//! Convex decomposition of simple polygons by the Hertel-Mehlhorn heuristic:
//! ear-clipping triangulation, a shared-edge index over the triangles, and a
//! single greedy pass that re-merges triangle pairs across internal diagonals
//! whenever the union stays convex.

pub mod area;
pub mod decompose;
pub mod errors;
pub mod geometry;
pub mod merge;
pub mod polygon;
pub mod shared_edges;
pub mod triangulate;
