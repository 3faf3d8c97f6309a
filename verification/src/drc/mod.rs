//! Design-rule checks: net-class clearance between every pair of copper
//! items, and `.kicad_dru` custom-rule track-width checks.

pub mod clearance;
pub mod custom_rules;
pub mod violation;
