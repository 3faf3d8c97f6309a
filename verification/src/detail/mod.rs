//! The grid-based detail router: per-layer obstacle bitmaps, an
//! octilinear A* search with via moves, and the connection router that
//! turns a found path into track segments and vias.

pub mod astar;
pub mod grid;
pub mod obstacle;
pub mod router;
