//! Exact integer-nanometre geometry kernel: points, vectors, the
//! orientation predicate, and the clearance predicates every design-rule
//! check and the router are built on.

pub mod circle;
pub mod point;
pub mod polygon;
pub mod predicates;
pub mod segment;
