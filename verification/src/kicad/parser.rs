//! Semantic extraction of a [`Board`] from `.kicad_pcb` text plus the
//! optional companion `.kicad_pro` project text.
//!
//! Scope, matching the fixture writer so the two are symmetric: exactly two
//! copper layers (`F.Cu`/`B.Cu`), straight tracks only, through vias only,
//! circular pads only, and footprint rotation is not applied to pad
//! positions (a pad's absolute position is its footprint's `at` plus the
//! pad's own `at`). Anything outside that scope, malformed, or outside the
//! coordinate range is skipped and reported in [`ParsedBoard::warnings`],
//! never silently dropped. Every net is assigned the `"Default"` class.

use vstd::prelude::*;

use crate::geom::circle::Circle;
use crate::geom::point::Point;
use crate::geom::polygon::Polygon;
use crate::geom::segment::Segment;
use crate::kicad::sexpr::{
    lemma_view_children, parse, spec_parse, v_as_atom, v_atom, v_children, v_find, v_find_all, v_head, ParseError,
    Sexpr, SexprView,
};
use crate::model::board::{class_index, classes_distinct, dim_ok, is_first_class, lemma_class_index, net_index, nets_distinct, Board};
use crate::model::items::{
    KeepoutFlags, Layer, LayerId, LayerKind, Net, NetClass, NetId, Pad, PadId, PadShape, RuleArea, RuleAreaId, Track, TrackId,
    Via, ViaId,
};
use crate::text::{chars_of, owned, parse_mm_nm, parse_u32, push_digits, push_str, spec_decimal, spec_parse_mm_nm, spec_parse_u32, str_eq};

verus! {

/// Why a board could not be read at all.
#[derive(Debug)]
pub enum ParseBoardError {
    /// The `.kicad_pcb` text is not valid S-expression syntax.
    Syntax(ParseError),
    /// The `.kicad_pro` text is not valid JSON; the parser's message.
    ProjectJson(String),
    /// The root element is not `(kicad_pcb ...)`.
    NotAKicadPcb,
    /// The board lacks `F.Cu` or `B.Cu`: only 2-layer boards are supported.
    MissingCopperLayers,
}

/// A board plus everything skipped rather than represented.
#[derive(Debug)]
pub struct ParsedBoard {
    pub board: Board,
    /// One message per skipped entry (unsupported pad shape, malformed
    /// entry, footprint with an unreadable position, ...).
    pub warnings: Vec<String>,
}

/// `F.Cu` is layer 0 and `B.Cu` layer 1; no other layer is modelled.
pub open spec fn spec_layer_id(name: Seq<char>) -> Option<LayerId> {
    if name == "F.Cu"@ {
        Some(LayerId(0))
    } else if name == "B.Cu"@ {
        Some(LayerId(1))
    } else {
        None
    }
}

fn layer_id_from_name(name: &str) -> (r: Option<LayerId>)
    ensures
        r == spec_layer_id(name@),
{
    if str_eq(name, "F.Cu") {
        Some(LayerId(0))
    } else if str_eq(name, "B.Cu") {
        Some(LayerId(1))
    } else {
        None
    }
}

/// The item carries `(locked yes)`.
pub open spec fn spec_locked(item: SexprView) -> bool {
    match v_find(item, "locked"@) {
        Some(l) => v_atom(l, 1) == Some("yes"@),
        None => false,
    }
}

fn is_locked(item: &Sexpr) -> (r: bool)
    ensures
        r == spec_locked(item@),
{
    match item.find("locked") {
        Some(l) => match l.atom(1) {
            Some(a) => str_eq(a, "yes"),
            None => false,
        },
        None => false,
    }
}

/// Millimetre text to whole nanometres (see `spec_parse_mm_nm`).
fn nm(text: &str) -> (r: Option<i64>)
    ensures
        r == spec_parse_mm_nm(text@),
{
    let v = chars_of(text);
    proof {
        assert(v@.subrange(0, v@.len() as int) =~= v@);
    }
    parse_mm_nm(&v, 0, v.len())
}

/// The millimetre value at position `i` of list `v`, in nanometres.
pub open spec fn mm_at(v: SexprView, i: int) -> Option<i64> {
    match v_atom(v, i) {
        Some(t) => spec_parse_mm_nm(t),
        None => None,
    }
}

fn nm_at(e: &Sexpr, i: usize) -> (r: Option<i64>)
    ensures
        r == mm_at(e@, i as int),
{
    match e.atom(i) {
        Some(t) => nm(t),
        None => None,
    }
}

fn point_ok(p: Point) -> (r: bool)
    ensures
        r == p.in_range(),
{
    -1_000_000_000 <= p.x && p.x <= 1_000_000_000 && -1_000_000_000 <= p.y && p.y <= 1_000_000_000
}

fn length_ok(v: i64) -> (r: bool)
    ensures
        r == dim_ok(v as int),
{
    0 <= v && v <= 1_000_000_000
}

/// The point `(tag x y)` gives, in nanometres.
pub open spec fn xy_of(v: SexprView) -> Option<Point> {
    match (mm_at(v, 1), mm_at(v, 2)) {
        (Some(x), Some(y)) => Some(Point { x, y }),
        _ => None,
    }
}

fn point_of(e: &Sexpr) -> (r: Option<Point>)
    ensures
        r == xy_of(e@),
{
    match (nm_at(e, 1), nm_at(e, 2)) {
        (Some(x), Some(y)) => Some(Point { x, y }),
        _ => None,
    }
}

/// The point of the child tagged `tag`.
pub open spec fn child_xy(v: SexprView, tag: Seq<char>) -> Option<Point> {
    match v_find(v, tag) {
        Some(c) => xy_of(c),
        None => None,
    }
}

fn child_point(e: &Sexpr, tag: &str) -> (r: Option<Point>)
    ensures
        r == child_xy(e@, tag@),
{
    match e.find(tag) {
        Some(c) => point_of(c),
        None => None,
    }
}

/// The first value of the child tagged `tag`, in nanometres.
pub open spec fn child_mm(v: SexprView, tag: Seq<char>) -> Option<i64> {
    match v_find(v, tag) {
        Some(c) => mm_at(c, 1),
        None => None,
    }
}

fn child_nm(e: &Sexpr, tag: &str) -> (r: Option<i64>)
    ensures
        r == child_mm(e@, tag@),
{
    match e.find(tag) {
        Some(c) => nm_at(c, 1),
        None => None,
    }
}

/// The number in `(net N ...)`, as `u32::from_str` reads it.
pub open spec fn child_net(v: SexprView) -> Option<u32> {
    match v_find(v, "net"@) {
        Some(c) => match v_atom(c, 1) {
            Some(t) => spec_parse_u32(t),
            None => None,
        },
        None => None,
    }
}

fn u32_of(text: &str) -> (r: Option<u32>)
    ensures
        r == spec_parse_u32(text@),
{
    let v = chars_of(text);
    proof {
        assert(v@.subrange(0, v@.len() as int) =~= v@);
    }
    parse_u32(&v, 0, v.len())
}

fn net_number(e: &Sexpr) -> (r: Option<u32>)
    ensures
        r == child_net(e@),
{
    match e.find("net") {
        Some(c) => match c.atom(1) {
            Some(t) => u32_of(t),
            None => None,
        },
        None => None,
    }
}

/// The layer named by the first value of the child tagged `layer`.
pub open spec fn child_layer(v: SexprView) -> Option<LayerId> {
    match v_find(v, "layer"@) {
        Some(c) => match v_atom(c, 1) {
            Some(t) => spec_layer_id(t),
            None => None,
        },
        None => None,
    }
}

fn layer_of(e: &Sexpr) -> (r: Option<LayerId>)
    ensures
        r == child_layer(e@),
{
    match e.find("layer") {
        Some(c) => match c.atom(1) {
            Some(t) => layer_id_from_name(t),
            None => None,
        },
        None => None,
    }
}

/// The track a `(segment ...)` entry describes: start, end, width, layer
/// and net all present and readable, and its geometry within range.
pub open spec fn spec_track(seg: SexprView, id: TrackId) -> Option<Track> {
    match (child_xy(seg, "start"@), child_xy(seg, "end"@), child_mm(seg, "width"@), child_layer(seg), child_net(seg)) {
        (Some(a), Some(b), Some(w), Some(layer), Some(net)) => {
            let segment = Segment { a, b };
            if segment.in_range() && dim_ok(w as int) {
                Some(Track { id, segment, width_nm: w, layer, net: NetId(net), locked: spec_locked(seg) })
            } else {
                None
            }
        },
        _ => None,
    }
}

fn parse_one_track(seg: &Sexpr, id: TrackId) -> (r: Option<Track>)
    ensures
        r == spec_track(seg@, id),
{
    let a = match child_point(seg, "start") {
        Some(p) => p,
        None => return None,
    };
    let b = match child_point(seg, "end") {
        Some(p) => p,
        None => return None,
    };
    let width_nm = match child_nm(seg, "width") {
        Some(w) => w,
        None => return None,
    };
    let layer = match layer_of(seg) {
        Some(l) => l,
        None => return None,
    };
    let net = match net_number(seg) {
        Some(n) => n,
        None => return None,
    };
    let segment = Segment { a, b };
    if !(point_ok(a) && point_ok(b) && length_ok(width_nm)) {
        return None;
    }
    Some(Track { id, segment, width_nm, layer, net: NetId(net), locked: is_locked(seg) })
}

/// Some value after the tag of list `v` is the atom `name`.
pub open spec fn lists_atom(v: SexprView, name: Seq<char>) -> bool {
    exists|i: int| 1 <= i < v_children(v).len() && v_as_atom(#[trigger] v_children(v)[i]) == Some(name)
}

fn has_atom(ls: &Sexpr, name: &str) -> (r: bool)
    ensures
        r == lists_atom(ls@, name@),
{
    proof {
        lemma_view_children(ls);
    }
    match ls {
        Sexpr::List(items) => {
            let mut i: usize = 1;
            while i < items.len()
                invariant
                    1 <= i,
                    i <= items@.len() || items@.len() == 0,
                    v_children(ls@).len() == items@.len(),
                    forall|k: int| 0 <= k < items@.len() ==> #[trigger] v_children(ls@)[k] == items@[k]@,
                    forall|j: int| 1 <= j < i && j < items@.len() ==> v_as_atom(#[trigger] v_children(ls@)[j]) != Some(name@),
                decreases items@.len() - i,
            {
                match items[i].as_atom() {
                    Some(a) => {
                        if str_eq(a, name) {
                            assert(v_as_atom(v_children(ls@)[i as int]) == Some(name@));
                            return true;
                        }
                    },
                    None => {},
                }
                i += 1;
            }
            false
        },
        Sexpr::Atom(_) => false,
    }
}

/// The through via a `(via ...)` entry describes: position, size, drill,
/// a layer list naming both `F.Cu` and `B.Cu`, and a net, with its
/// geometry within range.
pub open spec fn spec_via(v: SexprView, id: ViaId) -> Option<Via> {
    match (child_xy(v, "at"@), child_mm(v, "size"@), child_mm(v, "drill"@), v_find(v, "layers"@), child_net(v)) {
        (Some(position), Some(d), Some(drill), Some(ls), Some(net)) => {
            if lists_atom(ls, "F.Cu"@) && lists_atom(ls, "B.Cu"@) && position.in_range() && dim_ok(d as int) {
                Some(
                    Via {
                        id,
                        position,
                        diameter_nm: d,
                        drill_nm: drill,
                        from_layer: LayerId(0),
                        to_layer: LayerId(1),
                        net: NetId(net),
                        locked: spec_locked(v),
                    },
                )
            } else {
                None
            }
        },
        _ => None,
    }
}

fn parse_one_via(v: &Sexpr, id: ViaId) -> (r: Option<Via>)
    ensures
        r == spec_via(v@, id),
{
    let position = match child_point(v, "at") {
        Some(p) => p,
        None => return None,
    };
    let diameter_nm = match child_nm(v, "size") {
        Some(d) => d,
        None => return None,
    };
    let drill_nm = match child_nm(v, "drill") {
        Some(d) => d,
        None => return None,
    };
    let ls = match v.find("layers") {
        Some(l) => l,
        None => return None,
    };
    if !(has_atom(ls, "F.Cu") && has_atom(ls, "B.Cu")) {
        return None;
    }
    let net = match net_number(v) {
        Some(n) => n,
        None => return None,
    };
    if !(point_ok(position) && length_ok(diameter_nm)) {
        return None;
    }
    Some(
        Via {
            id,
            position,
            diameter_nm,
            drill_nm,
            from_layer: LayerId(0),
            to_layer: LayerId(1),
            net: NetId(net),
            locked: is_locked(v),
        },
    )
}

/// The modelled layers among the values after the tag of `cs` (children
/// `1..k`), in order.
pub open spec fn layer_ids_upto(cs: Seq<SexprView>, k: int) -> Seq<LayerId>
    decreases k,
{
    if k <= 1 {
        Seq::empty()
    } else {
        let prev = layer_ids_upto(cs, k - 1);
        match v_as_atom(cs[k - 1]) {
            Some(a) => match spec_layer_id(a) {
                Some(l) => prev.push(l),
                None => prev,
            },
            None => prev,
        }
    }
}

/// The modelled layers listed in `(layers ...)`.
pub open spec fn listed_layers(ls: SexprView) -> Seq<LayerId> {
    layer_ids_upto(v_children(ls), v_children(ls).len() as int)
}

fn layers_listed(ls: &Sexpr) -> (r: Vec<LayerId>)
    ensures
        r@ == listed_layers(ls@),
{
    proof {
        lemma_view_children(ls);
    }
    let mut out: Vec<LayerId> = Vec::new();
    match ls {
        Sexpr::List(items) => {
            let mut i: usize = 1;
            if items.len() == 0 {
                return out;
            }
            while i < items.len()
                invariant
                    1 <= i <= items@.len(),
                    v_children(ls@).len() == items@.len(),
                    forall|k: int| 0 <= k < items@.len() ==> #[trigger] v_children(ls@)[k] == items@[k]@,
                    out@ == layer_ids_upto(v_children(ls@), i as int),
                decreases items@.len() - i,
            {
                assert(v_children(ls@)[i as int] == items@[i as int]@);
                match items[i].as_atom() {
                    Some(a) => match layer_id_from_name(a) {
                        Some(l) => out.push(l),
                        None => {},
                    },
                    None => {},
                }
                i += 1;
            }
            out
        },
        Sexpr::Atom(_) => out,
    }
}

/// A pad as the parser builds it, by value.
pub struct PadModel {
    pub id: PadId,
    pub circle: Circle,
    pub layers: Seq<LayerId>,
    pub net: NetId,
    pub locked: bool,
    pub reference: Option<Seq<char>>,
    pub number: Option<Seq<char>>,
}

pub open spec fn opt_view(o: Option<String>) -> Option<Seq<char>> {
    match o {
        Some(s) => Some(s@),
        None => None,
    }
}

pub open spec fn pad_model(p: Pad) -> PadModel {
    PadModel {
        id: p.id,
        circle: p.circle(),
        layers: p.layers@,
        net: p.net,
        locked: p.locked,
        reference: opt_view(p.reference),
        number: opt_view(p.number),
    }
}

/// The pad a `(pad "<number>" <type> circle ...)` entry of a footprint at
/// `at` describes: its own position, size, at least one modelled layer and
/// a net other than 0 (unconnected), with its geometry within range. Its
/// lock state and reference come from the footprint.
pub open spec fn spec_pad(
    pad: SexprView,
    at: Point,
    locked: bool,
    reference: Option<Seq<char>>,
    id: PadId,
) -> Option<PadModel> {
    if v_atom(pad, 3) != Some("circle"@) {
        None
    } else {
        match (child_xy(pad, "at"@), child_mm(pad, "size"@), v_find(pad, "layers"@), child_net(pad)) {
            (Some(local), Some(d), Some(ls), Some(net)) => {
                let center = Point { x: (at.x + local.x) as i64, y: (at.y + local.y) as i64 };
                if listed_layers(ls).len() > 0 && net != 0 && at.in_range() && local.in_range() && center.in_range()
                    && dim_ok(d as int) {
                    Some(
                        PadModel {
                            id,
                            circle: Circle { center, radius_nm: (d / 2) as i64 },
                            layers: listed_layers(ls),
                            net: NetId(net),
                            locked,
                            reference,
                            number: v_atom(pad, 1),
                        },
                    )
                } else {
                    None
                }
            },
            _ => None,
        }
    }
}

fn atom_string(e: &Sexpr, i: usize) -> (r: Option<String>)
    ensures
        opt_view(r) == v_atom(e@, i as int),
{
    match e.atom(i) {
        Some(a) => Some(owned(a)),
        None => None,
    }
}

fn copy_opt(o: &Option<String>) -> (r: Option<String>)
    ensures
        opt_view(r) == opt_view(*o),
{
    match o {
        Some(s) => Some(owned(s.as_str())),
        None => None,
    }
}

fn parse_one_pad(pad: &Sexpr, at: Point, locked: bool, reference: &Option<String>, id: PadId) -> (r: Option<Pad>)
    ensures
        match r {
            Some(p) => spec_pad(pad@, at, locked, opt_view(*reference), id) == Some(pad_model(p)),
            None => spec_pad(pad@, at, locked, opt_view(*reference), id).is_none(),
        },
{
    let is_circle = match pad.atom(3) {
        Some(a) => str_eq(a, "circle"),
        None => false,
    };
    if !is_circle {
        return None;
    }
    let local = match child_point(pad, "at") {
        Some(p) => p,
        None => return None,
    };
    let diameter_nm = match child_nm(pad, "size") {
        Some(d) => d,
        None => return None,
    };
    let ls = match pad.find("layers") {
        Some(l) => l,
        None => return None,
    };
    let layers = layers_listed(ls);
    if layers.len() == 0 {
        return None;
    }
    let net = match net_number(pad) {
        Some(n) => n,
        None => return None,
    };
    if net == 0 {
        return None;
    }
    if !(point_ok(at) && point_ok(local) && length_ok(diameter_nm)) {
        return None;
    }
    let center = Point { x: at.x + local.x, y: at.y + local.y };
    if !point_ok(center) {
        return None;
    }
    Some(
        Pad {
            id,
            shape: PadShape::Circle(Circle { center, radius_nm: diameter_nm / 2 }),
            layers,
            net: NetId(net),
            locked,
            reference: copy_opt(reference),
            number: atom_string(pad, 1),
        },
    )
}

/// The views of a list of strings.
pub open spec fn texts(v: Seq<String>) -> Seq<Seq<char>> {
    v.map_values(|w: String| w@)
}

/// The id the `i`-th entry of its kind gets: its index, saturating at
/// `u32::MAX`.
pub open spec fn index_id(i: int) -> u32 {
    if i <= u32::MAX {
        i as u32
    } else {
        u32::MAX
    }
}

fn index_id_exec(i: usize) -> (r: u32)
    ensures
        r == index_id(i as int),
{
    if i <= 0xffff_ffff {
        i as u32
    } else {
        u32::MAX
    }
}

/// A message with a number appended.
fn numbered(prefix: &str, n: u64) -> (r: String)
    ensures
        r@ == prefix@ + spec_decimal(n as nat),
{
    let mut w = owned(prefix);
    push_digits(&mut w, n, 10);
    w
}

/// The tracks of the first `k` `(segment ...)` entries, and a warning for
/// each one skipped.
pub open spec fn tracks_scan(segs: Seq<SexprView>, k: int) -> (Seq<Track>, Seq<Seq<char>>)
    decreases k,
{
    if k <= 0 {
        (Seq::empty(), Seq::empty())
    } else {
        let (ts, ws) = tracks_scan(segs, k - 1);
        match spec_track(segs[k - 1], TrackId(index_id(k - 1))) {
            Some(t) => (ts.push(t), ws),
            None => (ts, ws.push("skipped malformed or unsupported segment #"@ + spec_decimal((k - 1) as nat))),
        }
    }
}

fn parse_tracks(root: &Sexpr, tracks: &mut Vec<Track>, warnings: &mut Vec<String>)
    ensures
        final(tracks)@ == old(tracks)@ + tracks_scan(v_find_all(root@, "segment"@), v_find_all(root@, "segment"@).len() as int).0,
        texts(final(warnings)@) == texts(old(warnings)@) + tracks_scan(
            v_find_all(root@, "segment"@),
            v_find_all(root@, "segment"@).len() as int,
        ).1,
{
    let segs = root.find_all("segment");
    let ghost sv = v_find_all(root@, "segment"@);
    let ghost t0 = tracks@;
    let ghost w0 = texts(warnings@);
    let mut i: usize = 0;
    while i < segs.len()
        invariant
            i <= segs@.len(),
            segs@.map_values(|c: &Sexpr| c@) == sv,
            tracks@ == t0 + tracks_scan(sv, i as int).0,
            texts(warnings@) == w0 + tracks_scan(sv, i as int).1,
        decreases segs@.len() - i,
    {
        assert(sv[i as int] == segs@[i as int]@);
        let id = TrackId(index_id_exec(i));
        match parse_one_track(segs[i], id) {
            Some(t) => {
                tracks.push(t);
                proof {
                    assert(tracks@ =~= t0 + tracks_scan(sv, i + 1).0);
                }
            },
            None => {
                let w = numbered("skipped malformed or unsupported segment #", i as u64);
                let ghost wb = warnings@;
                warnings.push(w);
                proof {
                    assert(texts(warnings@) =~= texts(wb).push(w@));
                    assert(texts(warnings@) =~= w0 + tracks_scan(sv, i + 1).1);
                }
            },
        }
        i += 1;
    }
}

/// The vias of the first `k` `(via ...)` entries, and a warning for each
/// one skipped.
pub open spec fn vias_scan(vs: Seq<SexprView>, k: int) -> (Seq<Via>, Seq<Seq<char>>)
    decreases k,
{
    if k <= 0 {
        (Seq::empty(), Seq::empty())
    } else {
        let (out, ws) = vias_scan(vs, k - 1);
        match spec_via(vs[k - 1], ViaId(index_id(k - 1))) {
            Some(v) => (out.push(v), ws),
            None => (out, ws.push("skipped malformed or unsupported via #"@ + spec_decimal((k - 1) as nat))),
        }
    }
}

fn parse_vias(root: &Sexpr, vias: &mut Vec<Via>, warnings: &mut Vec<String>)
    ensures
        final(vias)@ == old(vias)@ + vias_scan(v_find_all(root@, "via"@), v_find_all(root@, "via"@).len() as int).0,
        texts(final(warnings)@) == texts(old(warnings)@) + vias_scan(
            v_find_all(root@, "via"@),
            v_find_all(root@, "via"@).len() as int,
        ).1,
{
    let entries = root.find_all("via");
    let ghost sv = v_find_all(root@, "via"@);
    let ghost v0 = vias@;
    let ghost w0 = texts(warnings@);
    let mut i: usize = 0;
    while i < entries.len()
        invariant
            i <= entries@.len(),
            entries@.map_values(|c: &Sexpr| c@) == sv,
            vias@ == v0 + vias_scan(sv, i as int).0,
            texts(warnings@) == w0 + vias_scan(sv, i as int).1,
        decreases entries@.len() - i,
    {
        assert(sv[i as int] == entries@[i as int]@);
        let id = ViaId(index_id_exec(i));
        match parse_one_via(entries[i], id) {
            Some(v) => {
                vias.push(v);
                proof {
                    assert(vias@ =~= v0 + vias_scan(sv, i + 1).0);
                }
            },
            None => {
                let w = numbered("skipped malformed or unsupported via #", i as u64);
                let ghost wb = warnings@;
                warnings.push(w);
                proof {
                    assert(texts(warnings@) =~= texts(wb).push(w@));
                    assert(texts(warnings@) =~= w0 + vias_scan(sv, i + 1).1);
                }
            },
        }
        i += 1;
    }
}

/// `c` is `(property "Reference" ...)`.
pub open spec fn is_reference_property(c: SexprView) -> bool {
    v_head(c) == Some("property"@) && v_atom(c, 1) == Some("Reference"@)
}

/// The value of the first `Reference` property among `cs[k..]`.
pub open spec fn reference_from(cs: Seq<SexprView>, k: int) -> Option<Seq<char>>
    decreases cs.len() - k,
{
    if k < 0 || k >= cs.len() {
        None
    } else if is_reference_property(cs[k]) {
        v_atom(cs[k], 2)
    } else {
        reference_from(cs, k + 1)
    }
}

/// A footprint's reference designator (such as `IC14`), if it has one.
pub open spec fn fp_reference(fp: SexprView) -> Option<Seq<char>> {
    reference_from(v_children(fp), 0)
}

fn footprint_reference(fp: &Sexpr) -> (r: Option<String>)
    ensures
        opt_view(r) == fp_reference(fp@),
{
    proof {
        lemma_view_children(fp);
    }
    match fp {
        Sexpr::List(items) => {
            let mut i: usize = 0;
            while i < items.len()
                invariant
                    i <= items@.len(),
                    v_children(fp@).len() == items@.len(),
                    forall|k: int| 0 <= k < items@.len() ==> #[trigger] v_children(fp@)[k] == items@[k]@,
                    reference_from(v_children(fp@), 0) == reference_from(v_children(fp@), i as int),
                decreases items@.len() - i,
            {
                assert(v_children(fp@)[i as int] == items@[i as int]@);
                let is_property = match items[i].head() {
                    Some(h) => str_eq(h, "property"),
                    None => false,
                };
                let is_reference = is_property && match items[i].atom(1) {
                    Some(a) => str_eq(a, "Reference"),
                    None => false,
                };
                if is_reference {
                    return atom_string(&items[i], 2);
                }
                i += 1;
            }
            None
        },
        Sexpr::Atom(_) => None,
    }
}

/// The id after `x`, wrapping to 0 after `u32::MAX`.
pub open spec fn next_pad_index(x: u32) -> u32 {
    if x == u32::MAX {
        0
    } else {
        (x + 1) as u32
    }
}

/// The pads of the first `k` pad entries of one footprint, numbered from
/// `start`, a warning for each one skipped, and the next number.
pub open spec fn fp_pads(
    pads: Seq<SexprView>,
    k: int,
    start: u32,
    at: Point,
    locked: bool,
    reference: Option<Seq<char>>,
) -> (u32, Seq<PadModel>, Seq<Seq<char>>)
    decreases k,
{
    if k <= 0 {
        (start, Seq::empty(), Seq::empty())
    } else {
        let (idx, ps, ws) = fp_pads(pads, k - 1, start, at, locked, reference);
        match spec_pad(pads[k - 1], at, locked, reference, PadId(idx)) {
            Some(p) => (next_pad_index(idx), ps.push(p), ws),
            None => (
                next_pad_index(idx),
                ps,
                ws.push("skipped unsupported or malformed pad #"@ + spec_decimal(idx as nat)),
            ),
        }
    }
}

/// The pads of the first `k` footprints (pads numbered across footprints
/// in document order), the warnings for everything skipped, and the next
/// pad number. A footprint without a readable position is skipped whole.
pub open spec fn pads_scan(fps: Seq<SexprView>, k: int) -> (u32, Seq<PadModel>, Seq<Seq<char>>)
    decreases k,
{
    if k <= 0 {
        (0, Seq::empty(), Seq::empty())
    } else {
        let (idx, ps, ws) = pads_scan(fps, k - 1);
        let fp = fps[k - 1];
        match child_xy(fp, "at"@) {
            None => (idx, ps, ws.push("skipped footprint with missing/invalid position"@)),
            Some(at) => {
                let pads = v_find_all(fp, "pad"@);
                let (idx2, ps2, ws2) = fp_pads(pads, pads.len() as int, idx, at, spec_locked(fp), fp_reference(fp));
                (idx2, ps + ps2, ws + ws2)
            },
        }
    }
}

fn next_index(x: u32) -> (r: u32)
    ensures
        r == next_pad_index(x),
{
    if x == u32::MAX {
        0
    } else {
        x + 1
    }
}

fn parse_pads(root: &Sexpr, pads: &mut Vec<Pad>, warnings: &mut Vec<String>)
    ensures
        final(pads)@.map_values(|p: Pad| pad_model(p)) == old(pads)@.map_values(|p: Pad| pad_model(p)) + pads_scan(
            v_find_all(root@, "footprint"@),
            v_find_all(root@, "footprint"@).len() as int,
        ).1,
        texts(final(warnings)@) == texts(old(warnings)@) + pads_scan(
            v_find_all(root@, "footprint"@),
            v_find_all(root@, "footprint"@).len() as int,
        ).2,
{
    let fps = root.find_all("footprint");
    let ghost fv = v_find_all(root@, "footprint"@);
    let ghost p0 = pads@.map_values(|p: Pad| pad_model(p));
    let ghost w0 = texts(warnings@);
    let mut pad_index: u32 = 0;
    let mut f: usize = 0;
    while f < fps.len()
        invariant
            f <= fps@.len(),
            fps@.map_values(|c: &Sexpr| c@) == fv,
            pad_index == pads_scan(fv, f as int).0,
            pads@.map_values(|p: Pad| pad_model(p)) == p0 + pads_scan(fv, f as int).1,
            texts(warnings@) == w0 + pads_scan(fv, f as int).2,
        decreases fps@.len() - f,
    {
        let fp = fps[f];
        assert(fv[f as int] == fp@);
        match child_point(fp, "at") {
            None => {
                let ghost wb = warnings@;
                warnings.push(owned("skipped footprint with missing/invalid position"));
                proof {
                    assert(texts(warnings@) =~= texts(wb).push("skipped footprint with missing/invalid position"@));
                }
            },
            Some(at) => {
                let locked = is_locked(fp);
                let reference = footprint_reference(fp);
                let entries = fp.find_all("pad");
                let ghost pv = v_find_all(fp@, "pad"@);
                let ghost start = pad_index;
                let ghost pm = pads@.map_values(|p: Pad| pad_model(p));
                let ghost wm = texts(warnings@);
                let mut k: usize = 0;
                while k < entries.len()
                    invariant
                        k <= entries@.len(),
                        entries@.map_values(|c: &Sexpr| c@) == pv,
                        pad_index == fp_pads(pv, k as int, start, at, locked, opt_view(reference)).0,
                        pads@.map_values(|p: Pad| pad_model(p)) == pm + fp_pads(pv, k as int, start, at, locked, opt_view(reference)).1,
                        texts(warnings@) == wm + fp_pads(pv, k as int, start, at, locked, opt_view(reference)).2,
                    decreases entries@.len() - k,
                {
                    assert(pv[k as int] == entries@[k as int]@);
                    let id = PadId(pad_index);
                    pad_index = next_index(pad_index);
                    match parse_one_pad(entries[k], at, locked, &reference, id) {
                        Some(p) => {
                            let ghost pb = pads@;
                            pads.push(p);
                            proof {
                                assert(pads@.map_values(|p: Pad| pad_model(p)) =~= pb.map_values(|p: Pad| pad_model(p)).push(pad_model(p)));
                            }
                        },
                        None => {
                            let w = numbered("skipped unsupported or malformed pad #", id.0 as u64);
                            let ghost wb = warnings@;
                            warnings.push(w);
                            proof {
                                assert(texts(warnings@) =~= texts(wb).push(w@));
                            }
                        },
                    }
                    k += 1;
                }
            },
        }
        f += 1;
    }
}

/// The id and name a top-level `(net N "name")` entry declares; net 0
/// (KiCad's "no net") and unreadable numbers declare nothing.
pub open spec fn net_entry(e: SexprView) -> Option<(NetId, Seq<char>)> {
    match v_atom(e, 1) {
        Some(t) => match spec_parse_u32(t) {
            Some(id) => if id == 0 {
                None
            } else {
                Some(
                    (
                        NetId(id),
                        match v_atom(e, 2) {
                            Some(n) => n,
                            None => Seq::empty(),
                        },
                    ),
                )
            },
            None => None,
        },
        None => None,
    }
}

/// The name each net id ends up with after the first `k` entries: a later
/// entry for the same id replaces an earlier one.
pub open spec fn net_names(es: Seq<SexprView>, k: int) -> Map<NetId, Seq<char>>
    decreases k,
{
    if k <= 0 {
        Map::empty()
    } else {
        let m = net_names(es, k - 1);
        match net_entry(es[k - 1]) {
            Some((id, name)) => m.insert(id, name),
            None => m,
        }
    }
}

/// Looking a net up by id in `nets` agrees with `names`, and every net is
/// in the `"Default"` class.
pub open spec fn nets_agree(nets: Seq<Net>, names: Map<NetId, Seq<char>>) -> bool {
    forall|id: NetId|
        #![trigger names.dom().contains(id)]
        #![trigger net_index(nets, id)]
        match net_index(nets, id) {
            Some(i) => {
                &&& names.dom().contains(id)
                &&& nets[i].name@ == names[id]
                &&& nets[i].net_class@ == "Default"@
            },
            None => !names.dom().contains(id),
        }
}

fn parse_nets(root: &Sexpr, board: &mut Board)
    requires
        old(board).nets@.len() == 0,
    ensures
        nets_agree(final(board).nets@, net_names(v_find_all(root@, "net"@), v_find_all(root@, "net"@).len() as int)),
        nets_distinct(final(board).nets@),
        final(board).layers == old(board).layers,
        final(board).net_classes == old(board).net_classes,
        final(board).tracks == old(board).tracks,
        final(board).vias == old(board).vias,
        final(board).pads == old(board).pads,
        final(board).rule_areas == old(board).rule_areas,
{
    let entries = root.find_all("net");
    let ghost ev = v_find_all(root@, "net"@);
    let ghost b0 = *board;
    proof {
        assert forall|id: NetId| #![trigger net_index(board.nets@, id)] net_index(board.nets@, id).is_none() by {
            if exists|i: int| crate::model::board::is_first_net(board.nets@, id, i) {
                let i = choose|i: int| crate::model::board::is_first_net(board.nets@, id, i);
                assert(false);
            }
        }
    }
    let mut i: usize = 0;
    while i < entries.len()
        invariant
            i <= entries@.len(),
            entries@.map_values(|c: &Sexpr| c@) == ev,
            nets_agree(board.nets@, net_names(ev, i as int)),
            nets_distinct(board.nets@),
            board.layers == b0.layers,
            board.net_classes == b0.net_classes,
            board.tracks == b0.tracks,
            board.vias == b0.vias,
            board.pads == b0.pads,
            board.rule_areas == b0.rule_areas,
        decreases entries@.len() - i,
    {
        let e = entries[i];
        assert(ev[i as int] == e@);
        let id = match e.atom(1) {
            Some(t) => u32_of(t),
            None => None,
        };
        match id {
            Some(n) => {
                if n != 0 {
                    let name = match e.atom(2) {
                        Some(a) => owned(a),
                        None => String::new(),
                    };
                    let net = Net { id: NetId(n), name, net_class: owned("Default") };
                    let ghost before = board.nets@;
                    let ghost m0 = net_names(ev, i as int);
                    board.insert_net(net);
                    proof {
                        crate::model::board::lemma_insert_net_then_lookup(before, board.nets@, net);
                        let m1 = net_names(ev, i + 1);
                        assert(m1 == m0.insert(NetId(n), net.name@));
                        assert forall|x: NetId|
                            #![trigger m1.dom().contains(x)]
                            #![trigger net_index(board.nets@, x)]
                            match net_index(board.nets@, x) {
                                Some(j) => {
                                    &&& m1.dom().contains(x)
                                    &&& board.nets@[j].name@ == m1[x]
                                    &&& board.nets@[j].net_class@ == "Default"@
                                },
                                None => !m1.dom().contains(x),
                            } by {
                            if x != NetId(n) {
                                crate::model::board::lemma_insert_net_other(before, board.nets@, net, x);
                                assert(m0.dom().contains(x) == m1.dom().contains(x));
                                match net_index(before, x) {
                                    Some(j) => {
                                        assert(m0.dom().contains(x));
                                    },
                                    None => {},
                                }
                            }
                        }
                    }
                }
            },
            None => {},
        }
        i += 1;
    }
}

/// Some entry of `(layers ...)` names layer `name`.
pub open spec fn declares_layer(ls: SexprView, name: Seq<char>) -> bool {
    exists|i: int| 0 <= i < v_children(ls).len() && v_atom(#[trigger] v_children(ls)[i], 1) == Some(name)
}

/// The board declares both `F.Cu` and `B.Cu`.
pub open spec fn has_copper(root: SexprView) -> bool {
    match v_find(root, "layers"@) {
        Some(ls) => declares_layer(ls, "F.Cu"@) && declares_layer(ls, "B.Cu"@),
        None => false,
    }
}

fn declares(ls: &Sexpr, name: &str) -> (r: bool)
    ensures
        r == declares_layer(ls@, name@),
{
    proof {
        lemma_view_children(ls);
    }
    match ls {
        Sexpr::List(items) => {
            let mut i: usize = 0;
            while i < items.len()
                invariant
                    i <= items@.len(),
                    v_children(ls@).len() == items@.len(),
                    forall|k: int| 0 <= k < items@.len() ==> #[trigger] v_children(ls@)[k] == items@[k]@,
                    forall|j: int| 0 <= j < i ==> v_atom(#[trigger] v_children(ls@)[j], 1) != Some(name@),
                decreases items@.len() - i,
            {
                assert(v_children(ls@)[i as int] == items@[i as int]@);
                match items[i].atom(1) {
                    Some(a) => {
                        if str_eq(a, name) {
                            return true;
                        }
                    },
                    None => {},
                }
                i += 1;
            }
            false
        },
        Sexpr::Atom(_) => {
            false
        },
    }
}

fn check_copper(root: &Sexpr) -> (r: bool)
    ensures
        r == has_copper(root@),
{
    match root.find("layers") {
        Some(ls) => declares(ls, "F.Cu") && declares(ls, "B.Cu"),
        None => false,
    }
}

#[verifier::external_type_specification]
#[verifier::external_body]
pub struct ExJsonValue(serde_json::Value);

#[verifier::external_type_specification]
#[verifier::external_body]
pub struct ExJsonError(serde_json::Error);

/// Whether `serde_json::from_str` accepts `text` as one JSON document.
pub uninterp spec fn json_accepts(text: Seq<char>) -> bool;

/// `serde_json::from_str` into a `serde_json::Value`. The contract says
/// only that it succeeds exactly when serde_json accepts the text (a
/// verdict named `json_accepts`); the parsed value is opaque.
#[verifier::external_body]
fn json_parse(text: &str) -> (r: Result<serde_json::Value, serde_json::Error>)
    ensures
        r is Ok <==> json_accepts(text@),
{
    serde_json::from_str(text)
}

/// The message of a `serde_json::Error`, as its `Display` writes it;
/// nothing is stated of it.
#[verifier::external_body]
fn json_error_text(e: &serde_json::Error) -> String {
    format!("{}", e)
}

/// One entry of a project's class list as serde_json reads it: its
/// `name` where that is a string, and for each asked-for key the text
/// (as serde_json's `Display` writes it) of the field's value where that
/// is a number.
pub struct ProjectClass {
    pub name: Option<String>,
    pub fields: Vec<Option<String>>,
}

/// A project class entry as plain values.
pub open spec fn project_class_view(c: ProjectClass) -> (Option<Seq<char>>, Seq<Option<Seq<char>>>) {
    (
        match c.name {
            Some(n) => Some(n@),
            None => None,
        },
        c.fields@.map_values(|f: Option<String>| match f {
            Some(t) => Some(t@),
            None => None,
        }),
    )
}

pub open spec fn project_classes_view(r: Option<Vec<ProjectClass>>) -> Option<Seq<(Option<Seq<char>>, Seq<Option<Seq<char>>>)>> {
    match r {
        Some(v) => Some(v@.map_values(|c: ProjectClass| project_class_view(c))),
        None => None,
    }
}

/// The class list serde_json reads from project `text` under
/// `net_settings.classes`, each entry's name and `keys` fields as above;
/// `None` where the text is not JSON or holds no such list.
pub uninterp spec fn json_classes(text: Seq<char>, keys: Seq<Seq<char>>) -> Option<
    Seq<(Option<Seq<char>>, Seq<Option<Seq<char>>>)>,
>;

/// `serde_json::from_str`, then `Value::pointer` to
/// `/net_settings/classes` and `Value::as_array`; of each entry
/// `Value::get` with `as_str` for its name and, per key, `Value::get` with
/// `as_number` and the number's `Display`. The contract names the result
/// (`json_classes`) as a function of the text and the keys.
#[verifier::external_body]
fn json_project_classes(text: &str, keys: &[&str]) -> (r: Option<Vec<ProjectClass>>)
    ensures
        project_classes_view(r) == json_classes(text@, keys@.map_values(|k: &str| k@)),
{
    let v: serde_json::Value = serde_json::from_str(text).ok()?;
    let arr = v.pointer("/net_settings/classes")?.as_array()?;
    Some(arr.iter().map(|c| ProjectClass {
        name: c.get("name").and_then(|x| x.as_str()).map(|s| s.to_string()),
        fields: keys.iter().map(|k| c.get(*k).and_then(|x| x.as_number()).map(|n| n.to_string())).collect(),
    }).collect())
}

/// The numeric fields read for each class, in this order.
pub open spec fn class_keys() -> Seq<Seq<char>> {
    seq![
        "clearance"@,
        "track_width"@,
        "via_diameter"@,
        "via_drill"@,
        "diff_pair_width"@,
        "diff_pair_gap"@,
        "diff_pair_via_gap"@,
    ]
}

/// A net class as plain values: name, clearance, track width, via
/// diameter, via drill, and the three differential-pair values.
pub type ClassModel = (Seq<char>, i64, i64, i64, i64, Option<i64>, Option<i64>, Option<i64>);

pub open spec fn class_model(c: NetClass) -> ClassModel {
    (
        c.name@,
        c.clearance_nm,
        c.track_width_nm,
        c.via_diameter_nm,
        c.via_drill_nm,
        c.diff_pair_track_width_nm,
        c.diff_pair_gap_nm,
        c.diff_pair_via_gap_nm,
    )
}

pub open spec fn class_models(cs: Seq<NetClass>) -> Seq<ClassModel> {
    cs.map_values(|c: NetClass| class_model(c))
}

pub open spec fn default_class_model() -> ClassModel {
    ("Default"@, 200_000, 250_000, 600_000, 300_000, None, None, None)
}

/// Field `k` of a class entry, read as millimetres in nanometres.
pub open spec fn entry_nm(pc: (Option<Seq<char>>, Seq<Option<Seq<char>>>), k: int) -> Option<i64> {
    if 0 <= k < pc.1.len() {
        match pc.1[k] {
            Some(t) => spec_parse_mm_nm(t),
            None => None,
        }
    } else {
        None
    }
}

pub open spec fn entry_nm_or(pc: (Option<Seq<char>>, Seq<Option<Seq<char>>>), k: int, d: i64) -> i64 {
    match entry_nm(pc, k) {
        Some(v) => v,
        None => d,
    }
}

pub open spec fn entry_name(pc: (Option<Seq<char>>, Seq<Option<Seq<char>>>)) -> Seq<char> {
    match pc.0 {
        Some(n) => n,
        None => "Default"@,
    }
}

/// The class an entry describes: missing or non-numeric fields take
/// KiCad's placeholder values, a missing name is `"Default"`.
pub open spec fn entry_model(pc: (Option<Seq<char>>, Seq<Option<Seq<char>>>)) -> ClassModel {
    (
        entry_name(pc),
        entry_nm_or(pc, 0, 200_000),
        entry_nm_or(pc, 1, 250_000),
        entry_nm_or(pc, 2, 600_000),
        entry_nm_or(pc, 3, 300_000),
        entry_nm(pc, 4),
        entry_nm(pc, 5),
        entry_nm(pc, 6),
    )
}

/// An entry is kept when its clearance, track width and via diameter are
/// valid lengths.
pub open spec fn entry_kept(pc: (Option<Seq<char>>, Seq<Option<Seq<char>>>)) -> bool {
    let m = entry_model(pc);
    dim_ok(m.1 as int) && dim_ok(m.2 as int) && dim_ok(m.3 as int)
}

/// `i` is the first index of a class named `name`.
pub open spec fn is_first_model(ms: Seq<ClassModel>, name: Seq<char>, i: int) -> bool {
    &&& 0 <= i < ms.len()
    &&& ms[i].0 == name
    &&& forall|j: int| 0 <= j < i ==> (#[trigger] ms[j]).0 != name
}

/// `m` added, replacing the first class of the same name.
pub open spec fn insert_model(ms: Seq<ClassModel>, m: ClassModel) -> Seq<ClassModel> {
    if exists|i: int| is_first_model(ms, m.0, i) {
        ms.update(choose|i: int| is_first_model(ms, m.0, i), m)
    } else {
        ms.push(m)
    }
}

/// The classes after the first `k` entries of the list.
pub open spec fn entries_fold(pcs: Seq<(Option<Seq<char>>, Seq<Option<Seq<char>>>)>, k: int) -> Seq<ClassModel>
    decreases k,
{
    if k <= 0 {
        Seq::empty()
    } else if entry_kept(pcs[k - 1]) {
        insert_model(entries_fold(pcs, k - 1), entry_model(pcs[k - 1]))
    } else {
        entries_fold(pcs, k - 1)
    }
}

/// The warnings for the skipped entries among the first `k`.
pub open spec fn entries_warnings(pcs: Seq<(Option<Seq<char>>, Seq<Option<Seq<char>>>)>, k: int) -> Seq<Seq<char>>
    decreases k,
{
    if k <= 0 {
        Seq::empty()
    } else if entry_kept(pcs[k - 1]) {
        entries_warnings(pcs, k - 1)
    } else {
        entries_warnings(pcs, k - 1).push("skipped net class with an out-of-range dimension: "@ + entry_name(pcs[k - 1]))
    }
}

/// The entries of the project's class list (none without one).
pub open spec fn project_entries(text: Seq<char>) -> Seq<(Option<Seq<char>>, Seq<Option<Seq<char>>>)> {
    match json_classes(text, class_keys()) {
        Some(pcs) => pcs,
        None => Seq::empty(),
    }
}

/// The net classes a project text gives: its entries folded in order,
/// then the placeholder `"Default"` unless one was read.
#[verifier::opaque]
pub open spec fn project_classes(text: Seq<char>) -> Seq<ClassModel> {
    let pcs = project_entries(text);
    let ms = entries_fold(pcs, pcs.len() as int);
    if exists|i: int| is_first_model(ms, "Default"@, i) {
        ms
    } else {
        ms.push(default_class_model())
    }
}

/// The warnings reading a project text gives.
#[verifier::opaque]
pub open spec fn project_warnings(text: Seq<char>) -> Seq<Seq<char>> {
    let pcs = project_entries(text);
    entries_warnings(pcs, pcs.len() as int)
}

proof fn lemma_first_class_model(classes: Seq<NetClass>, name: Seq<char>)
    ensures
        (exists|i: int| #[trigger] is_first_model(class_models(classes), name, i)) == class_index(
            classes,
            name,
        ).is_some(),
        forall|i: int|
            #[trigger] is_first_model(class_models(classes), name, i) <==> is_first_class(
                classes,
                name,
                i,
            ),
        class_index(classes, name) matches Some(i) ==> is_first_class(classes, name, i),
{
    let ms = class_models(classes);
    assert forall|i: int| #[trigger] is_first_model(ms, name, i) <==> is_first_class(classes, name, i) by {
        if 0 <= i < classes.len() {
            assert(ms[i] == class_model(classes[i]));
            if is_first_class(classes, name, i) {
                assert forall|j: int| 0 <= j < i implies (#[trigger] ms[j]).0 != name by {
                    assert(ms[j] == class_model(classes[j]));
                }
            }
            if is_first_model(ms, name, i) {
                assert forall|j: int| 0 <= j < i implies (#[trigger] classes[j]).name@ != name by {
                    assert(ms[j] == class_model(classes[j]));
                }
            }
        }
    }
    if exists|i: int| is_first_class(classes, name, i) {
        let i = choose|i: int| is_first_class(classes, name, i);
        assert(is_first_model(ms, name, i));
    }
    if exists|i: int| is_first_model(ms, name, i) {
        let i = choose|i: int| is_first_model(ms, name, i);
        assert(is_first_class(classes, name, i));
    }
}

proof fn lemma_first_unique(ms: Seq<ClassModel>, name: Seq<char>, i: int, j: int)
    requires
        is_first_model(ms, name, i),
        is_first_model(ms, name, j),
    ensures
        i == j,
{
    if i < j {
        assert(ms[i].0 != name);
    }
    if j < i {
        assert(ms[j].0 != name);
    }
}

proof fn lemma_insert_class_model(classes: Seq<NetClass>, after: Seq<NetClass>, c: NetClass)
    requires
        match class_index(classes, c.name@) {
            Some(i) => after == classes.update(i, c),
            None => after == classes.push(c),
        },
    ensures
        class_models(after) == insert_model(
            class_models(classes),
            class_model(c),
        ),
{
    let ms = class_models(classes);
    lemma_first_class_model(classes, c.name@);
    match class_index(classes, c.name@) {
        Some(i) => {
            assert(is_first_model(ms, c.name@, i));
            let k = choose|k: int| is_first_model(ms, class_model(c).0, k);
            lemma_first_unique(ms, c.name@, i, k);
            assert(class_models(after) =~= ms.update(i, class_model(c)));
        },
        None => {
            assert(class_models(after) =~= ms.push(class_model(c)));
        },
    }
}

/// serde_json reads project `text` as listing the classes `cs` in order:
/// each entry's name and its clearance, track width, via diameter and via
/// drill read back as `cs`'s values, and no differential-pair field.
pub open spec fn json_lists_classes(text: Seq<char>, cs: Seq<NetClass>) -> bool {
    match json_classes(text, class_keys()) {
        Some(pcs) => {
            &&& pcs.len() == cs.len()
            &&& forall|i: int|
                0 <= i < cs.len() ==> {
                    &&& (#[trigger] pcs[i]).0 == Some(cs[i].name@)
                    &&& entry_nm(pcs[i], 0) == Some(cs[i].clearance_nm)
                    &&& entry_nm(pcs[i], 1) == Some(cs[i].track_width_nm)
                    &&& entry_nm(pcs[i], 2) == Some(cs[i].via_diameter_nm)
                    &&& entry_nm(pcs[i], 3) == Some(cs[i].via_drill_nm)
                    &&& entry_nm(pcs[i], 4) is None
                    &&& entry_nm(pcs[i], 5) is None
                    &&& entry_nm(pcs[i], 6) is None
                }
        },
        None => false,
    }
}

/// Classes a project file can carry back: distinct names, one of them
/// `"Default"`, valid clearance, track width and via diameter, and no
/// differential-pair values.
pub open spec fn classes_writable(cs: Seq<NetClass>) -> bool {
    &&& forall|i: int, j: int| 0 <= i < j < cs.len() ==> (#[trigger] cs[i]).name@ != (#[trigger] cs[j]).name@
    &&& exists|i: int| 0 <= i < cs.len() && (#[trigger] cs[i]).name@ == "Default"@
    &&& classes_ok(cs)
    &&& forall|i: int|
        0 <= i < cs.len() ==> {
            &&& (#[trigger] cs[i]).diff_pair_track_width_nm is None
            &&& cs[i].diff_pair_gap_nm is None
            &&& cs[i].diff_pair_via_gap_nm is None
        }
}

/// A project text that serde_json reads as listing classes `cs` (which
/// a project file can carry) gives exactly those classes back, with no
/// warning.
pub proof fn lemma_project_reads_back(text: Seq<char>, cs: Seq<NetClass>)
    requires
        json_lists_classes(text, cs),
        classes_writable(cs),
    ensures
        project_classes(text) == class_models(cs),
        project_warnings(text) == Seq::<Seq<char>>::empty(),
{
    reveal(project_classes);
    reveal(project_warnings);
    let pcs = project_entries(text);
    assert forall|i: int| 0 <= i < cs.len() implies entry_kept(#[trigger] pcs[i]) && entry_model(pcs[i]) == class_model(cs[i]) by {
        assert(pcs[i].0 == Some(cs[i].name@));
    }
    lemma_fold_distinct(pcs, cs, cs.len() as int);
    let ms = class_models(cs);
    assert(cs.subrange(0, cs.len() as int) =~= cs);
    let d = choose|i: int| 0 <= i < cs.len() && (#[trigger] cs[i]).name@ == "Default"@;
    assert forall|j: int| 0 <= j < d implies (#[trigger] ms[j]).0 != "Default"@ by {
        assert(ms[j] == class_model(cs[j]));
        assert(cs[j].name@ != cs[d].name@);
    }
    assert(ms[d] == class_model(cs[d]));
    assert(is_first_model(ms, "Default"@, d));
}

proof fn lemma_fold_distinct(
    pcs: Seq<(Option<Seq<char>>, Seq<Option<Seq<char>>>)>,
    cs: Seq<NetClass>,
    k: int,
)
    requires
        0 <= k <= cs.len(),
        pcs.len() == cs.len(),
        forall|i: int, j: int| 0 <= i < j < cs.len() ==> (#[trigger] cs[i]).name@ != (#[trigger] cs[j]).name@,
        forall|i: int| 0 <= i < cs.len() ==> entry_kept(#[trigger] pcs[i]) && entry_model(pcs[i]) == class_model(cs[i]),
    ensures
        entries_fold(pcs, k) == class_models(cs.subrange(0, k)),
        entries_warnings(pcs, k) == Seq::<Seq<char>>::empty(),
    decreases k,
{
    if k > 0 {
        lemma_fold_distinct(pcs, cs, k - 1);
        let prev = class_models(cs.subrange(0, k - 1));
        assert(entry_kept(pcs[k - 1]));
        let m = entry_model(pcs[k - 1]);
        assert forall|i: int| !is_first_model(prev, m.0, i) by {
            if 0 <= i < prev.len() {
                assert(prev[i] == class_model(cs[i]));
                assert(cs[i].name@ != cs[k - 1].name@);
            }
        }
        assert(entries_fold(pcs, k) == prev.push(m));
        assert(class_models(cs.subrange(0, k)) =~= prev.push(class_model(cs[k - 1])));
    } else {
        assert(class_models(cs.subrange(0, 0)) =~= Seq::<ClassModel>::empty());
    }
}


/// Every class's clearance, track width and via diameter is a valid
/// length.
pub open spec fn classes_ok(classes: Seq<NetClass>) -> bool {
    forall|i: int|
        0 <= i < classes.len() ==> {
            &&& dim_ok((#[trigger] classes[i]).clearance_nm as int)
            &&& dim_ok(classes[i].track_width_nm as int)
            &&& dim_ok(classes[i].via_diameter_nm as int)
        }
}

/// The class field `k` of an entry in nanometres.
fn entry_field_nm(pc: &ProjectClass, k: usize) -> (r: Option<i64>)
    ensures
        r == entry_nm(project_class_view(*pc), k as int),
{
    if k < pc.fields.len() {
        proof {
            assert(project_class_view(*pc).1[k as int] == match pc.fields@[k as int] {
                Some(t) => Some(t@),
                None => None::<Seq<char>>,
            });
        }
        match &pc.fields[k] {
            Some(t) => nm(t.as_str()),
            None => None,
        }
    } else {
        None
    }
}

/// Reads the net classes from the project text (`net_settings.classes`;
/// each missing field falls back to KiCad's placeholder value, a missing
/// name to `"Default"`, a later class replacing an earlier one of the same
/// name), then adds the placeholder `"Default"` class unless one was read.
/// A class whose clearance, track width or via diameter is not a valid
/// length is skipped with a warning. Fails, with serde_json's message,
/// exactly when the project text is not JSON.
fn parse_net_classes(pro_text: Option<&str>, board: &mut Board, warnings: &mut Vec<String>) -> (r: Result<(), String>)
    requires
        old(board).net_classes@.len() == 0,
    ensures
        match pro_text {
            Some(t) => r is Err <==> !json_accepts(t@),
            None => r is Ok,
        },
        r is Ok ==> class_index(final(board).net_classes@, "Default"@).is_some(),
        classes_ok(final(board).net_classes@),
        classes_distinct(final(board).net_classes@),
        pro_text is None ==> {
            &&& final(board).net_classes@.len() == 1
            &&& final(board).net_classes@[0].name@ == "Default"@
            &&& final(board).net_classes@[0].clearance_nm == 200_000
            &&& final(board).net_classes@[0].track_width_nm == 250_000
            &&& final(board).net_classes@[0].via_diameter_nm == 600_000
            &&& final(board).net_classes@[0].via_drill_nm == 300_000
            &&& final(warnings)@ == old(warnings)@
        },
        r is Ok ==> match pro_text {
            Some(t) => {
                &&& class_models(final(board).net_classes@) == project_classes(t@)
                &&& texts(final(warnings)@) == texts(old(warnings)@) + project_warnings(t@)
            },
            None => true,
        },
        final(board).layers == old(board).layers,
        final(board).nets == old(board).nets,
        final(board).tracks == old(board).tracks,
        final(board).vias == old(board).vias,
        final(board).pads == old(board).pads,
        final(board).rule_areas == old(board).rule_areas,
{
    let ghost b0 = *board;
    let ghost w0 = warnings@;
    match pro_text {
        Some(text) => {
            match json_parse(text) {
                Ok(_) => {},
                Err(e) => return Err(json_error_text(&e)),
            };
            let keys: Vec<&str> = vec![
                "clearance",
                "track_width",
                "via_diameter",
                "via_drill",
                "diff_pair_width",
                "diff_pair_gap",
                "diff_pair_via_gap",
            ];
            proof {
                assert(keys@.map_values(|k: &str| k@) =~= class_keys());
            }
            let classes = json_project_classes(text, keys.as_slice());
            let ghost pcs = project_entries(text@);
            match classes {
                Some(arr) => {
                    proof {
                        assert(pcs == arr@.map_values(|c: ProjectClass| project_class_view(c)));
                    }
                    let mut i: usize = 0;
                    while i < arr.len()
                        invariant
                            i <= arr@.len(),
                            pcs == arr@.map_values(|c: ProjectClass| project_class_view(c)),
                            classes_ok(board.net_classes@),
                            classes_distinct(board.net_classes@),
                            class_models(board.net_classes@) == entries_fold(pcs, i as int),
                            texts(warnings@) == texts(w0) + entries_warnings(pcs, i as int),
                            board.layers == b0.layers,
                            board.nets == b0.nets,
                            board.tracks == b0.tracks,
                            board.vias == b0.vias,
                            board.pads == b0.pads,
                            board.rule_areas == b0.rule_areas,
                        decreases arr@.len() - i,
                    {
                        let pc = &arr[i];
                        let ghost pv = project_class_view(*pc);
                        proof {
                            assert(pcs[i as int] == pv);
                        }
                        let name = match &pc.name {
                            Some(n) => n.clone(),
                            None => owned("Default"),
                        };
                        proof {
                            assert(name@ == entry_name(pv));
                        }
                        let clearance_nm = match entry_field_nm(pc, 0) {
                            Some(v) => v,
                            None => 200_000,
                        };
                        let track_width_nm = match entry_field_nm(pc, 1) {
                            Some(v) => v,
                            None => 250_000,
                        };
                        let via_diameter_nm = match entry_field_nm(pc, 2) {
                            Some(v) => v,
                            None => 600_000,
                        };
                        let via_drill_nm = match entry_field_nm(pc, 3) {
                            Some(v) => v,
                            None => 300_000,
                        };
                        let ghost wprev = warnings@;
                        if length_ok(clearance_nm) && length_ok(track_width_nm) && length_ok(via_diameter_nm) {
                            let nc = NetClass {
                                name,
                                clearance_nm,
                                track_width_nm,
                                via_diameter_nm,
                                via_drill_nm,
                                diff_pair_track_width_nm: entry_field_nm(pc, 4),
                                diff_pair_gap_nm: entry_field_nm(pc, 5),
                                diff_pair_via_gap_nm: entry_field_nm(pc, 6),
                            };
                            let ghost before = board.net_classes@;
                            board.insert_net_class(nc);
                            proof {
                                assert(class_model(nc) == entry_model(pv));
                                lemma_insert_class_model(before, board.net_classes@, nc);
                                assert forall|k: int| 0 <= k < board.net_classes@.len() implies {
                                    &&& dim_ok((#[trigger] board.net_classes@[k]).clearance_nm as int)
                                    &&& dim_ok(board.net_classes@[k].track_width_nm as int)
                                    &&& dim_ok(board.net_classes@[k].via_diameter_nm as int)
                                } by {
                                    if k < before.len() && board.net_classes@[k] != nc {
                                        assert(board.net_classes@[k] == before[k]);
                                    }
                                }
                            }
                        } else {
                            let mut w = owned("skipped net class with an out-of-range dimension: ");
                            push_str(&mut w, name.as_str());
                            warnings.push(w);
                            proof {
                                assert(texts(warnings@) =~= texts(wprev).push(w@));
                            }
                        }
                        i += 1;
                    }
                    proof {
                        assert(pcs.len() == arr@.len());
                    }
                },
                None => {
                    proof {
                        assert(pcs == Seq::<(Option<Seq<char>>, Seq<Option<Seq<char>>>)>::empty());
                        assert(class_models(board.net_classes@) =~= entries_fold(pcs, 0));
                        assert(texts(warnings@) =~= texts(w0) + entries_warnings(pcs, 0));
                    }
                },
            }
        },
        None => {},
    }
    let ghost ms = class_models(board.net_classes@);
    proof {
        reveal(project_classes);
        reveal(project_warnings);
    }
    let default_name = owned("Default");
    proof {
        lemma_first_class_model(board.net_classes@, "Default"@);
    }
    match board.find_net_class(&default_name) {
        Some(_) => {},
        None => {
            let placeholder = NetClass::default_placeholder();
            let ghost before = board.net_classes@;
            board.net_classes.push(placeholder);
            proof {
                lemma_class_index(before, "Default"@);
                assert forall|a: int, b: int| 0 <= a < b < board.net_classes@.len() implies (#[trigger] board.net_classes@[a]).name@
                    != (#[trigger] board.net_classes@[b]).name@ by {
                    if b == before.len() {
                        assert(board.net_classes@[a] == before[a]);
                    } else {
                        assert(board.net_classes@[a] == before[a] && board.net_classes@[b] == before[b]);
                    }
                }
                crate::model::board::lemma_push_new_class(before, placeholder);
                assert(class_model(placeholder) == default_class_model());
                assert(class_models(board.net_classes@) =~= ms.push(default_class_model()));
            }
        },
    }
    Ok(())
}

/// A rule area as the parser builds it, by value.
pub struct RuleAreaModel {
    pub id: RuleAreaId,
    pub name: Seq<char>,
    pub outline: Seq<Point>,
    pub layers: Seq<LayerId>,
    pub keepout: KeepoutFlags,
}

pub open spec fn rule_area_model(a: RuleArea) -> RuleAreaModel {
    RuleAreaModel { id: a.id, name: a.name@, outline: a.outline.vertices@, layers: a.layers@, keepout: a.keepout }
}

/// The first `k` `(xy x y)` points, all readable and within range.
pub open spec fn xy_points(xs: Seq<SexprView>, k: int) -> Option<Seq<Point>>
    decreases k,
{
    if k <= 0 {
        Some(Seq::empty())
    } else {
        match (xy_points(xs, k - 1), xy_of(xs[k - 1])) {
            (Some(ps), Some(p)) => if p.in_range() {
                Some(ps.push(p))
            } else {
                None
            },
            _ => None,
        }
    }
}

/// The outline of a zone: the points of `(polygon (pts (xy ..) ..))`.
pub open spec fn zone_outline(z: SexprView) -> Option<Seq<Point>> {
    match v_find(z, "polygon"@) {
        Some(poly) => match v_find(poly, "pts"@) {
            Some(pts) => {
                let xs = v_find_all(pts, "xy"@);
                xy_points(xs, xs.len() as int)
            },
            None => None,
        },
        None => None,
    }
}

/// The layers of a zone: those listed in `(layers ...)`, else the one of
/// `(layer ...)`.
pub open spec fn zone_layers(z: SexprView) -> Seq<LayerId> {
    match v_find(z, "layers"@) {
        Some(ls) => listed_layers(ls),
        None => match child_layer(z) {
            Some(l) => seq![l],
            None => Seq::empty(),
        },
    }
}

/// The keepout entry tagged `tag` says `allowed`.
pub open spec fn allows(keepout: SexprView, tag: Seq<char>) -> bool {
    match v_find(keepout, tag) {
        Some(c) => v_atom(c, 1) == Some("allowed"@),
        None => false,
    }
}

/// A zone is a rule area when it has a name and keepout settings.
pub open spec fn is_rule_area(z: SexprView) -> bool {
    v_find(z, "keepout"@).is_some() && (v_find(z, "name"@) matches Some(n) && v_atom(n, 1).is_some())
}

/// The rule area a named keepout zone declares: its outline must have at
/// least three readable in-range points.
pub open spec fn spec_rule_area(z: SexprView, id: RuleAreaId) -> Option<RuleAreaModel> {
    match (v_find(z, "name"@), v_find(z, "keepout"@), zone_outline(z)) {
        (Some(n), Some(k), Some(outline)) => match v_atom(n, 1) {
            Some(name) => if outline.len() >= 3 {
                Some(
                    RuleAreaModel {
                        id,
                        name,
                        outline,
                        layers: zone_layers(z),
                        keepout: KeepoutFlags {
                            tracks_allowed: allows(k, "tracks"@),
                            vias_allowed: allows(k, "vias"@),
                            pads_allowed: allows(k, "pads"@),
                            copper_pour_allowed: allows(k, "copperpour"@),
                            footprints_allowed: allows(k, "footprints"@),
                        },
                    },
                )
            } else {
                None
            },
            None => None,
        },
        _ => None,
    }
}

/// The rule areas among the first `k` zones (each identified by its zone
/// index), and a warning for each malformed one; zones that are not rule
/// areas (copper pours) are passed over.
pub open spec fn zones_scan(zs: Seq<SexprView>, k: int) -> (Seq<RuleAreaModel>, Seq<Seq<char>>)
    decreases k,
{
    if k <= 0 {
        (Seq::empty(), Seq::empty())
    } else {
        let (out, ws) = zones_scan(zs, k - 1);
        if !is_rule_area(zs[k - 1]) {
            (out, ws)
        } else {
            match spec_rule_area(zs[k - 1], RuleAreaId(index_id(k - 1))) {
                Some(a) => (out.push(a), ws),
                None => (out, ws.push("skipped malformed rule area #"@ + spec_decimal((k - 1) as nat))),
            }
        }
    }
}

fn read_points(pts: &Sexpr) -> (r: Option<Vec<Point>>)
    ensures
        match r {
            Some(v) => xy_points(v_find_all(pts@, "xy"@), v_find_all(pts@, "xy"@).len() as int) == Some(v@),
            None => xy_points(v_find_all(pts@, "xy"@), v_find_all(pts@, "xy"@).len() as int).is_none(),
        },
{
    let xs = pts.find_all("xy");
    let ghost xv = v_find_all(pts@, "xy"@);
    let mut out: Vec<Point> = Vec::new();
    let mut i: usize = 0;
    while i < xs.len()
        invariant
            i <= xs@.len(),
            xs@.map_values(|c: &Sexpr| c@) == xv,
            xv == v_find_all(pts@, "xy"@),
            xy_points(xv, i as int) == Some(out@),
        decreases xs@.len() - i,
    {
        assert(xv[i as int] == xs@[i as int]@);
        let p = match point_of(xs[i]) {
            Some(p) => p,
            None => {
                proof {
                    lemma_xy_points_none(xv, i as int + 1, xv.len() as int);
                }
                return None;
            },
        };
        if !point_ok(p) {
            proof {
                lemma_xy_points_none(xv, i as int + 1, xv.len() as int);
            }
            return None;
        }
        out.push(p);
        i += 1;
    }
    Some(out)
}

proof fn lemma_xy_points_none(xs: Seq<SexprView>, j: int, k: int)
    requires
        1 <= j <= k,
        xy_points(xs, j).is_none(),
    ensures
        xy_points(xs, k).is_none(),
    decreases k - j,
{
    if j < k {
        lemma_xy_points_none(xs, j, k - 1);
    }
}

fn zone_layer_list(z: &Sexpr) -> (r: Vec<LayerId>)
    ensures
        r@ == zone_layers(z@),
{
    match z.find("layers") {
        Some(ls) => layers_listed(ls),
        None => match layer_of(z) {
            Some(l) => {
                let mut v: Vec<LayerId> = Vec::new();
                v.push(l);
                proof {
                    assert(v@ =~= seq![l]);
                }
                v
            },
            None => Vec::new(),
        },
    }
}

fn allowed(keepout: &Sexpr, tag: &str) -> (r: bool)
    ensures
        r == allows(keepout@, tag@),
{
    match keepout.find(tag) {
        Some(c) => match c.atom(1) {
            Some(a) => str_eq(a, "allowed"),
            None => false,
        },
        None => false,
    }
}

fn parse_one_rule_area(z: &Sexpr, id: RuleAreaId) -> (r: Option<RuleArea>)
    ensures
        match r {
            Some(a) => spec_rule_area(z@, id) == Some(rule_area_model(a)),
            None => spec_rule_area(z@, id).is_none(),
        },
{
    let n = match z.find("name") {
        Some(n) => n,
        None => return None,
    };
    let k = match z.find("keepout") {
        Some(k) => k,
        None => return None,
    };
    let poly = match z.find("polygon") {
        Some(p) => p,
        None => return None,
    };
    let pts = match poly.find("pts") {
        Some(p) => p,
        None => return None,
    };
    let outline = match read_points(pts) {
        Some(v) => v,
        None => return None,
    };
    let name = match n.atom(1) {
        Some(a) => owned(a),
        None => return None,
    };
    if outline.len() < 3 {
        return None;
    }
    let keepout = KeepoutFlags {
        tracks_allowed: allowed(k, "tracks"),
        vias_allowed: allowed(k, "vias"),
        pads_allowed: allowed(k, "pads"),
        copper_pour_allowed: allowed(k, "copperpour"),
        footprints_allowed: allowed(k, "footprints"),
    };
    Some(RuleArea { id, name, outline: Polygon::new(outline), layers: zone_layer_list(z), keepout })
}

fn zone_is_rule_area(z: &Sexpr) -> (r: bool)
    ensures
        r == is_rule_area(z@),
{
    let has_keepout = match z.find("keepout") {
        Some(_) => true,
        None => false,
    };
    let has_name = match z.find("name") {
        Some(n) => match n.atom(1) {
            Some(_) => true,
            None => false,
        },
        None => false,
    };
    has_keepout && has_name
}

fn parse_rule_areas(root: &Sexpr, areas: &mut Vec<RuleArea>, warnings: &mut Vec<String>)
    ensures
        final(areas)@.map_values(|a: RuleArea| rule_area_model(a)) == old(areas)@.map_values(
            |a: RuleArea| rule_area_model(a),
        ) + zones_scan(v_find_all(root@, "zone"@), v_find_all(root@, "zone"@).len() as int).0,
        texts(final(warnings)@) == texts(old(warnings)@) + zones_scan(
            v_find_all(root@, "zone"@),
            v_find_all(root@, "zone"@).len() as int,
        ).1,
{
    let zones = root.find_all("zone");
    let ghost zv = v_find_all(root@, "zone"@);
    let ghost a0 = areas@.map_values(|a: RuleArea| rule_area_model(a));
    let ghost w0 = texts(warnings@);
    let mut i: usize = 0;
    while i < zones.len()
        invariant
            i <= zones@.len(),
            zones@.map_values(|c: &Sexpr| c@) == zv,
            areas@.map_values(|a: RuleArea| rule_area_model(a)) == a0 + zones_scan(zv, i as int).0,
            texts(warnings@) == w0 + zones_scan(zv, i as int).1,
        decreases zones@.len() - i,
    {
        assert(zv[i as int] == zones@[i as int]@);
        if zone_is_rule_area(zones[i]) {
            let id = RuleAreaId(index_id_exec(i));
            match parse_one_rule_area(zones[i], id) {
                Some(a) => {
                    let ghost ab = areas@;
                    areas.push(a);
                    proof {
                        assert(areas@.map_values(|a: RuleArea| rule_area_model(a)) =~= ab.map_values(
                            |a: RuleArea| rule_area_model(a),
                        ).push(rule_area_model(a)));
                    }
                },
                None => {
                    let w = numbered("skipped malformed rule area #", i as u64);
                    let ghost wb = warnings@;
                    warnings.push(w);
                    proof {
                        assert(texts(warnings@) =~= texts(wb).push(w@));
                    }
                },
            }
        }
        i += 1;
    }
}

proof fn lemma_zones_scan_ok(zs: Seq<SexprView>, k: int)
    ensures
        forall|i: int|
            0 <= i < zones_scan(zs, k).0.len() ==> forall|j: int|
                0 <= j < (#[trigger] zones_scan(zs, k).0[i]).outline.len() ==> (#[trigger] zones_scan(zs, k).0[i].outline[j]).in_range(),
    decreases k,
{
    if k > 0 {
        lemma_zones_scan_ok(zs, k - 1);
        let prev = zones_scan(zs, k - 1).0;
        if is_rule_area(zs[k - 1]) {
            match spec_rule_area(zs[k - 1], RuleAreaId(index_id(k - 1))) {
                Some(a) => {
                    let z = zs[k - 1];
                    let poly = v_find(z, "polygon"@)->0;
                    let pts = v_find(poly, "pts"@)->0;
                    let xs = v_find_all(pts, "xy"@);
                    lemma_xy_points_in_range(xs, xs.len() as int);
                    assert forall|i: int| 0 <= i < zones_scan(zs, k).0.len() implies forall|j: int|
                        0 <= j < (#[trigger] zones_scan(zs, k).0[i]).outline.len() ==> (#[trigger] zones_scan(zs, k).0[i].outline[j]).in_range() by {
                        if i < prev.len() {
                            assert(zones_scan(zs, k).0[i] == prev[i]);
                        }
                    }
                },
                None => {},
            }
        }
    }
}

proof fn lemma_xy_points_in_range(xs: Seq<SexprView>, k: int)
    ensures
        xy_points(xs, k) matches Some(ps) ==> forall|j: int| 0 <= j < ps.len() ==> (#[trigger] ps[j]).in_range(),
    decreases k,
{
    if k > 0 {
        lemma_xy_points_in_range(xs, k - 1);
        match (xy_points(xs, k - 1), xy_of(xs[k - 1])) {
            (Some(ps), Some(p)) => {
                if p.in_range() {
                    assert forall|j: int| 0 <= j < ps.push(p).len() implies (#[trigger] ps.push(p)[j]).in_range() by {
                        if j < ps.len() {
                            assert(ps.push(p)[j] == ps[j]);
                        }
                    }
                }
            },
            _ => {},
        }
    }
}

proof fn lemma_tracks_scan_ok(segs: Seq<SexprView>, k: int)
    ensures
        forall|i: int|
            0 <= i < tracks_scan(segs, k).0.len() ==> {
                &&& (#[trigger] tracks_scan(segs, k).0[i]).segment.in_range()
                &&& dim_ok(tracks_scan(segs, k).0[i].width_nm as int)
            },
    decreases k,
{
    if k > 0 {
        lemma_tracks_scan_ok(segs, k - 1);
        let prev = tracks_scan(segs, k - 1).0;
        assert forall|i: int| 0 <= i < tracks_scan(segs, k).0.len() implies {
            &&& (#[trigger] tracks_scan(segs, k).0[i]).segment.in_range()
            &&& dim_ok(tracks_scan(segs, k).0[i].width_nm as int)
        } by {
            if i < prev.len() {
                assert(tracks_scan(segs, k).0[i] == prev[i]);
            }
        }
    }
}

proof fn lemma_vias_scan_ok(vs: Seq<SexprView>, k: int)
    ensures
        forall|i: int|
            0 <= i < vias_scan(vs, k).0.len() ==> {
                &&& (#[trigger] vias_scan(vs, k).0[i]).position.in_range()
                &&& dim_ok(vias_scan(vs, k).0[i].diameter_nm as int)
            },
    decreases k,
{
    if k > 0 {
        lemma_vias_scan_ok(vs, k - 1);
        let prev = vias_scan(vs, k - 1).0;
        assert forall|i: int| 0 <= i < vias_scan(vs, k).0.len() implies {
            &&& (#[trigger] vias_scan(vs, k).0[i]).position.in_range()
            &&& dim_ok(vias_scan(vs, k).0[i].diameter_nm as int)
        } by {
            if i < prev.len() {
                assert(vias_scan(vs, k).0[i] == prev[i]);
            }
        }
    }
}

pub open spec fn pads_ok(ps: Seq<PadModel>) -> bool {
    forall|i: int| 0 <= i < ps.len() ==> (#[trigger] ps[i]).circle.center.in_range() && dim_ok(ps[i].circle.radius_nm as int)
}

proof fn lemma_fp_pads_ok(
    pads: Seq<SexprView>,
    k: int,
    start: u32,
    at: Point,
    locked: bool,
    reference: Option<Seq<char>>,
)
    ensures
        pads_ok(fp_pads(pads, k, start, at, locked, reference).1),
    decreases k,
{
    if k > 0 {
        lemma_fp_pads_ok(pads, k - 1, start, at, locked, reference);
        let prev = fp_pads(pads, k - 1, start, at, locked, reference).1;
        let cur = fp_pads(pads, k, start, at, locked, reference).1;
        assert forall|i: int| 0 <= i < cur.len() implies (#[trigger] cur[i]).circle.center.in_range() && dim_ok(cur[i].circle.radius_nm as int) by {
            if i < prev.len() {
                assert(cur[i] == prev[i]);
            }
        }
    }
}

proof fn lemma_pads_scan_ok(fps: Seq<SexprView>, k: int)
    ensures
        pads_ok(pads_scan(fps, k).1),
    decreases k,
{
    if k > 0 {
        lemma_pads_scan_ok(fps, k - 1);
        let fp = fps[k - 1];
        match child_xy(fp, "at"@) {
            None => {},
            Some(at) => {
                let pads = v_find_all(fp, "pad"@);
                let (idx, ps, ws) = pads_scan(fps, k - 1);
                lemma_fp_pads_ok(pads, pads.len() as int, idx, at, spec_locked(fp), fp_reference(fp));
                let ps2 = fp_pads(pads, pads.len() as int, idx, at, spec_locked(fp), fp_reference(fp)).1;
                assert forall|i: int| 0 <= i < (ps + ps2).len() implies (#[trigger] (ps + ps2)[i]).circle.center.in_range()
                    && dim_ok((ps + ps2)[i].circle.radius_nm as int) by {
                    if i < ps.len() {
                        assert((ps + ps2)[i] == ps[i]);
                    } else {
                        assert((ps + ps2)[i] == ps2[i - ps.len()]);
                    }
                }
            },
        }
    }
}

/// What a successful parse of board `root` with project text `pro_text`
/// holds: the two copper layers, the nets as the `(net ...)` entries
/// declare them, the net classes (the placeholder `"Default"` alone when
/// there is no project text; a `"Default"` class in every case), and the
/// tracks, vias, pads and rule areas the entries describe, with one warning per
/// skipped entry after any warnings about skipped net classes.
pub open spec fn parsed_from(root: SexprView, pro_text: Option<&str>, pb: &ParsedBoard) -> bool {
    let b = &pb.board;
    let segs = v_find_all(root, "segment"@);
    let vias = v_find_all(root, "via"@);
    let fps = v_find_all(root, "footprint"@);
    let nets = v_find_all(root, "net"@);
    let zones = v_find_all(root, "zone"@);
    let rest = tracks_scan(segs, segs.len() as int).1 + vias_scan(vias, vias.len() as int).1 + pads_scan(
        fps,
        fps.len() as int,
    ).2 + zones_scan(zones, zones.len() as int).1;
    &&& b.geometry_valid()
    &&& b.layers@.len() == 2
    &&& b.layers@[0].id == LayerId(0) && b.layers@[0].name@ == "F.Cu"@ && b.layers@[0].kind == LayerKind::Copper
    &&& b.layers@[1].id == LayerId(1) && b.layers@[1].name@ == "B.Cu"@ && b.layers@[1].kind == LayerKind::Copper
    &&& nets_agree(b.nets@, net_names(nets, nets.len() as int))
    &&& nets_distinct(b.nets@)
    &&& classes_distinct(b.net_classes@)
    &&& class_index(b.net_classes@, "Default"@).is_some()
    &&& pro_text is None ==> {
        &&& b.net_classes@.len() == 1
        &&& b.net_classes@[0].clearance_nm == 200_000
        &&& b.net_classes@[0].track_width_nm == 250_000
        &&& b.net_classes@[0].via_diameter_nm == 600_000
        &&& b.net_classes@[0].via_drill_nm == 300_000
    }
    &&& b.tracks@ == tracks_scan(segs, segs.len() as int).0
    &&& b.vias@ == vias_scan(vias, vias.len() as int).0
    &&& b.pads@.map_values(|p: Pad| pad_model(p)) == pads_scan(fps, fps.len() as int).1
    &&& b.rule_areas@.map_values(|a: RuleArea| rule_area_model(a)) == zones_scan(zones, zones.len() as int).0
    &&& texts(pb.warnings@).len() >= rest.len()
    &&& texts(pb.warnings@).subrange(texts(pb.warnings@).len() - rest.len(), texts(pb.warnings@).len() as int) == rest
    &&& pro_text is None ==> texts(pb.warnings@) == rest
    &&& match pro_text {
        Some(t) => {
            &&& class_models(b.net_classes@) == project_classes(t@)
            &&& texts(pb.warnings@) == project_warnings(t@) + rest
        },
        None => true,
    }
}

/// Parses `.kicad_pcb` text into a [`Board`], reading net classes from
/// `pro_text` (the companion `.kicad_pro` project text, where KiCad keeps
/// net-class clearance and widths) when given; without it a single
/// placeholder `"Default"` class is used.
///
/// Fails if `pcb_text` is not S-expression syntax, its root is not
/// `(kicad_pcb ...)`, it lacks `F.Cu` or `B.Cu`, or `pro_text` is given
/// but is not JSON — checked in that order.
pub fn parse_board(pcb_text: &str, pro_text: Option<&str>) -> (r: Result<ParsedBoard, ParseBoardError>)
    ensures
        match spec_parse(pcb_text@) {
            Err(m) => r matches Err(ParseBoardError::Syntax(e)) && e.0@ == m,
            Ok(root) => if v_head(root) != Some("kicad_pcb"@) {
                r matches Err(ParseBoardError::NotAKicadPcb)
            } else if !has_copper(root) {
                r matches Err(ParseBoardError::MissingCopperLayers)
            } else if pro_text matches Some(t) && !json_accepts(t@) {
                r matches Err(ParseBoardError::ProjectJson(_))
            } else {
                r matches Ok(pb) && parsed_from(root, pro_text, &pb)
            },
        },
{
    let root = match parse(pcb_text) {
        Ok(e) => e,
        Err(e) => return Err(ParseBoardError::Syntax(e)),
    };
    let is_pcb = match root.head() {
        Some(h) => str_eq(h, "kicad_pcb"),
        None => false,
    };
    if !is_pcb {
        return Err(ParseBoardError::NotAKicadPcb);
    }
    if !check_copper(&root) {
        return Err(ParseBoardError::MissingCopperLayers);
    }
    let mut warnings: Vec<String> = Vec::new();
    let mut board = Board::new();
    board.layers.push(Layer::copper(LayerId(0), "F.Cu"));
    board.layers.push(Layer::copper(LayerId(1), "B.Cu"));
    match parse_net_classes(pro_text, &mut board, &mut warnings) {
        Ok(()) => {},
        Err(m) => return Err(ParseBoardError::ProjectJson(m)),
    }
    let ghost cw = texts(warnings@);
    parse_nets(&root, &mut board);
    parse_tracks(&root, &mut board.tracks, &mut warnings);
    parse_vias(&root, &mut board.vias, &mut warnings);
    parse_pads(&root, &mut board.pads, &mut warnings);
    parse_rule_areas(&root, &mut board.rule_areas, &mut warnings);
    proof {
        let segs = v_find_all(root@, "segment"@);
        let vias = v_find_all(root@, "via"@);
        let fps = v_find_all(root@, "footprint"@);
        let zones = v_find_all(root@, "zone"@);
        lemma_tracks_scan_ok(segs, segs.len() as int);
        lemma_vias_scan_ok(vias, vias.len() as int);
        lemma_pads_scan_ok(fps, fps.len() as int);
        lemma_zones_scan_ok(zones, zones.len() as int);
        let rest = tracks_scan(segs, segs.len() as int).1 + vias_scan(vias, vias.len() as int).1 + pads_scan(
            fps,
            fps.len() as int,
        ).2 + zones_scan(zones, zones.len() as int).1;
        let w = texts(warnings@);
        assert(w =~= cw + rest);
        assert(w.subrange(w.len() - rest.len(), w.len() as int) =~= rest);
        assert forall|i: int| 0 <= i < board.pads@.len() implies (#[trigger] board.pads@[i]).circle().center.in_range()
            && dim_ok(board.pads@[i].circle().radius_nm as int) by {
            assert(board.pads@.map_values(|p: Pad| pad_model(p))[i] == pad_model(board.pads@[i]));
        }
        assert forall|i: int| 0 <= i < board.rule_areas@.len() implies (#[trigger] board.rule_areas@[i]).outline.in_range() by {
            assert(board.rule_areas@.map_values(|a: RuleArea| rule_area_model(a))[i] == rule_area_model(board.rule_areas@[i]));
            let m = zones_scan(zones, zones.len() as int).0[i];
            assert forall|j: int| 0 <= j < board.rule_areas@[i].outline.vertices@.len() implies (#[trigger] board.rule_areas@[i].outline.vertices@[j]).in_range() by {
                assert(m.outline[j] == board.rule_areas@[i].outline.vertices@[j]);
            }
        }
    }
    Ok(ParsedBoard { board, warnings })
}

} // verus!
