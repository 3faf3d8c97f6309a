//! The board model: layers, nets, net classes, pads, tracks, vias, rule
//! areas, and the `Board` aggregate.

pub mod board;
pub mod connection;
pub mod items;
