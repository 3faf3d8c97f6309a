use vstd::prelude::*;

use crate::model::items::{PadId, TrackId, ViaId};

verus! {

/// Identifies one side of a clearance violation.
#[derive(Debug, Clone, Copy, PartialEq, Eq, Structural, Hash)]
pub enum ItemRef {
    Track(TrackId),
    Via(ViaId),
    Pad(PadId),
}

/// A single clearance-rule violation between two board items.
#[derive(Debug, Clone, Copy, PartialEq, Eq, Structural)]
pub struct ClearanceViolation {
    pub a: ItemRef,
    pub b: ItemRef,
    pub required_nm: i64,
}

} // verus!
