//! Ray queries against an octree over an integer coordinate lattice.
//!
//! Coordinates are integers (a fixed-point unit chosen by the caller) and
//! distances along a ray are exact rationals, so every boundary decision of
//! the slab test is made without rounding.
//!
//! - `math`: the plane and axis-aligned box tests.
//! - `octree`: the octree, its nearest-hit query and its lazy ray iterator;
//!   `octree::laws` states and proves what holds of them.
//! - `candidates`: the short sorted list of box-level candidates a node keeps.
pub mod vector;
pub mod intersection;
pub mod math;
pub mod candidates;
pub mod octree;

pub use intersection::{IntersectionData, RayIntersection};
