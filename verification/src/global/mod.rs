//! Global routing: multi-pin net decomposition into two-pin edges, and
//! PathFinder negotiated congestion over a coarse grid.

pub mod pathfinder;
pub mod steiner;
