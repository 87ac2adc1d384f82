//! Minimum spanning trees over a growing set of grid points.
//!
//! Points are inserted one at a time into a [`PointSet`]; after every
//! insertion [`MstBuilder::build`] recomputes, from scratch, the tree that
//! joins all points with the least total length. Lengths are compared through
//! the exact squared Euclidean distance, an integer, so that every ordering
//! decision is exact.
//!
//! The modules, from the bottom up:
//! - `geometry`: coordinates and the squared distance between two of them;
//! - `point_set`: the append-only collection of points;
//! - `edge`: a weighted edge and the order in which candidates are tried;
//! - `frontier`: the min-priority queue of candidate edges;
//! - `graph`: what it means for links to connect, to span and to be acyclic;
//! - `mst`: the tree builder and the statement of what it returns;
//! - `laws`: proofs that what the builder returns is a minimum spanning tree.

pub mod edge;
pub mod frontier;
pub mod geometry;
pub mod graph;
pub mod laws;
pub mod mst;
pub mod point_set;

pub use edge::Edge;
pub use frontier::Frontier;
pub use geometry::{squared_distance, Coordinate};
pub use mst::MstBuilder;
pub use point_set::{Point, PointSet};
