//! KiCad file handling: the S-expression syntax layer, `.kicad_pcb` board
//! extraction, the fixture writer, and `.kicad_dru` custom design rules
//! (file syntax, condition language, and evaluator).

pub mod dru;
pub mod dru_eval;
pub mod dru_expr;
pub mod fixture;
pub mod fixture_layout;
pub mod parser;
pub mod readback;
pub mod sexpr;
