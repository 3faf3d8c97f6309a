use vstd::prelude::*;

use crate::geom::circle::Circle;
use crate::geom::point::Point;
use crate::geom::polygon::Polygon;
use crate::geom::segment::Segment;

verus! {

/// Identifies a board layer within one board.
#[derive(Debug, Clone, Copy, PartialEq, Eq, Structural, Hash)]
pub struct LayerId(pub u32);

/// Whether a layer carries copper (routable, an obstacle source) or not.
#[derive(Debug, Clone, Copy, PartialEq, Eq, Structural)]
pub enum LayerKind {
    Copper,
    NonCopper,
}

#[derive(Debug)]
pub struct Layer {
    pub id: LayerId,
    pub name: String,
    pub kind: LayerKind,
}

impl Layer {
    /// A copper layer named `name`.
    pub fn copper(id: LayerId, name: &str) -> (l: Layer)
        ensures
            l.id == id,
            l.name@ == name@,
            l.kind == LayerKind::Copper,
    {
        Layer { id, name: String::from_str(name), kind: LayerKind::Copper }
    }
}

#[derive(Debug, Clone, Copy, PartialEq, Eq, Structural, Hash)]
pub struct NetId(pub u32);

/// A named electrical connection; `net_class` names the net class it is
/// assigned to.
#[derive(Debug)]
pub struct Net {
    pub id: NetId,
    pub name: String,
    pub net_class: String,
}

/// The clearance/width/via rules resolved per net class.
#[derive(Debug)]
pub struct NetClass {
    pub name: String,
    pub clearance_nm: i64,
    pub track_width_nm: i64,
    pub via_diameter_nm: i64,
    pub via_drill_nm: i64,
    pub diff_pair_track_width_nm: Option<i64>,
    pub diff_pair_gap_nm: Option<i64>,
    pub diff_pair_via_gap_nm: Option<i64>,
}

impl NetClass {
    /// KiCad's fallback `"Default"` class with placeholder values: 0.2 mm
    /// clearance, 0.25 mm tracks, 0.6 mm vias with a 0.3 mm drill.
    pub fn default_placeholder() -> (c: NetClass)
        ensures
            c.name@ == "Default"@,
            c.clearance_nm == 200_000,
            c.track_width_nm == 250_000,
            c.via_diameter_nm == 600_000,
            c.via_drill_nm == 300_000,
            c.diff_pair_track_width_nm.is_none(),
            c.diff_pair_gap_nm.is_none(),
            c.diff_pair_via_gap_nm.is_none(),
    {
        NetClass {
            name: String::from_str("Default"),
            clearance_nm: 200_000,
            track_width_nm: 250_000,
            via_diameter_nm: 600_000,
            via_drill_nm: 300_000,
            diff_pair_track_width_nm: None,
            diff_pair_gap_nm: None,
            diff_pair_via_gap_nm: None,
        }
    }
}

#[derive(Debug, Clone, Copy, PartialEq, Eq, Structural, Hash)]
pub struct PadId(pub u32);

/// A pad's copper shape in absolute board coordinates (circular only).
#[derive(Debug, Clone, Copy, PartialEq, Eq, Structural)]
pub enum PadShape {
    Circle(Circle),
}

/// A pad; `reference`/`number` identify its footprint and pad number
/// (e.g. `IC14` and `3`) when known.
#[derive(Debug)]
pub struct Pad {
    pub id: PadId,
    pub shape: PadShape,
    pub layers: Vec<LayerId>,
    pub net: NetId,
    pub locked: bool,
    pub reference: Option<String>,
    pub number: Option<String>,
}

impl Pad {
    pub open spec fn circle(&self) -> Circle {
        match self.shape {
            PadShape::Circle(c) => c,
        }
    }
}

#[derive(Debug, Clone, Copy, PartialEq, Eq, Structural, Hash)]
pub struct TrackId(pub u32);

/// A straight copper track segment.
#[derive(Debug, Clone, Copy, PartialEq, Eq, Structural)]
pub struct Track {
    pub id: TrackId,
    pub segment: Segment,
    pub width_nm: i64,
    pub layer: LayerId,
    pub net: NetId,
    pub locked: bool,
}

#[derive(Debug, Clone, Copy, PartialEq, Eq, Structural, Hash)]
pub struct ViaId(pub u32);

/// A through via spanning `from_layer` to `to_layer` inclusive.
#[derive(Debug, Clone, Copy, PartialEq, Eq, Structural)]
pub struct Via {
    pub id: ViaId,
    pub position: Point,
    pub diameter_nm: i64,
    pub drill_nm: i64,
    pub from_layer: LayerId,
    pub to_layer: LayerId,
    pub net: NetId,
    pub locked: bool,
}

#[derive(Debug, Clone, Copy, PartialEq, Eq, Structural, Hash)]
pub struct RuleAreaId(pub u32);

/// Which item kinds a rule area allows (KiCad's per-zone keepout flags).
#[derive(Debug, Clone, Copy, PartialEq, Eq, Structural)]
pub struct KeepoutFlags {
    pub tracks_allowed: bool,
    pub vias_allowed: bool,
    pub pads_allowed: bool,
    pub copper_pour_allowed: bool,
    pub footprints_allowed: bool,
}

/// A named rule-area zone; `.kicad_dru` conditions reference it by `name`.
#[derive(Debug)]
pub struct RuleArea {
    pub id: RuleAreaId,
    pub name: String,
    pub outline: Polygon,
    pub layers: Vec<LayerId>,
    pub keepout: KeepoutFlags,
}

/// A copy of `v` with the same contents.
pub fn copy_layers(v: &Vec<LayerId>) -> (r: Vec<LayerId>)
    ensures
        r@ == v@,
{
    let mut r: Vec<LayerId> = Vec::new();
    let mut i: usize = 0;
    while i < v.len()
        invariant
            0 <= i <= v@.len(),
            r@ == v@.subrange(0, i as int),
        decreases v@.len() - i,
    {
        r.push(v[i]);
        i += 1;
        proof {
            assert(r@ =~= v@.subrange(0, i as int));
        }
    }
    proof {
        assert(r@ =~= v@);
    }
    r
}

} // verus!
