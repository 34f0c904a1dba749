//! Topology-aware path planning on occupancy grids.
//!
//! A probability grid is thresholded into free and blocked cells; blocked
//! cells are grouped into obstacles, and each obstacle contributes one entry
//! to the signature of a path (how often the path crosses a ray cast from the
//! obstacle).  The planner then searches for a shortest path that reaches the
//! goal with a requested signature.
pub mod grid;
pub mod space;
pub mod search;
