//! Tessera: a PCB autorouter core — exact geometry, board model, design-rule
//! checks, KiCad file handling, and a grid router with global negotiation.

pub mod geom;
pub mod global;
pub mod kicad;
pub mod detail;
pub mod drc;
pub mod engine;
pub mod model;
pub mod text;
