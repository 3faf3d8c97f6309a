//! `.kicad_pcb` / `.kicad_pro` fixture generation for checking the clearance
//! checker against KiCad's own DRC.
//!
//! This is not a production writer: it emits the smallest pair of files
//! `kicad-cli pcb drc` accepts for a board's geometry. Net-class clearance
//! lives in the companion `.kicad_pro` JSON (`net_settings.classes`); pads
//! only exist nested inside footprints (one single-pad footprint per pad);
//! geometry is written in millimetres. Scoped to exactly two copper layers
//! (`F.Cu` ordinal 0, `B.Cu` ordinal 2).

use vstd::prelude::*;

use crate::model::board::{net_index, Board};
use crate::model::items::{LayerId, NetClass, Pad, PadShape, Track, Via};
use crate::geom::point::Point;
use crate::text::{
    push_char, push_digits, push_mm6, push_mm_short, push_padded, push_str, spec_decimal, spec_digits, spec_mm6, spec_mm_short,
    zero_pad,
};

verus! {

/// A line break followed by `k` tabs: the whitespace before an entry
/// nested `k` deep.
pub open spec fn indent(k: nat) -> Seq<char> {
    seq!['\n'] + Seq::new(k, |i: int| '\t')
}

/// `s` between double quotes.
pub open spec fn quote(s: Seq<char>) -> Seq<char> {
    seq!['"'] + s + seq!['"']
}

/// `s` as a further value on the line of a list's tag.
pub open spec fn word(s: Seq<char>) -> Seq<char> {
    seq![' '] + s
}

/// Two values separated by a space.
pub open spec fn two(a: Seq<char>, b: Seq<char>) -> Seq<char> {
    a + seq![' '] + b
}

/// `(tag value)` on a line of its own, nested `k` deep.
pub open spec fn entry(k: nat, tag: Seq<char>, value: Seq<char>) -> Seq<char> {
    indent(k) + seq!['('] + tag + seq![' '] + value + seq![')']
}

/// The start of a list `(tag ...` whose entries follow on lines of their
/// own, nested `k` deep.
pub open spec fn opening(k: nat, tag: Seq<char>) -> Seq<char> {
    indent(k) + seq!['('] + tag
}

/// The closing parenthesis of a list nested `k` deep, on a line of its own.
pub open spec fn closing(k: nat) -> Seq<char> {
    indent(k) + seq![')']
}

/// A point as two millimetre values.
pub open spec fn xy_text(p: Point) -> Seq<char> {
    two(spec_mm6(p.x as int), spec_mm6(p.y as int))
}

/// The placeholder UUID numbered `n`: deterministic, enough for KiCad's
/// parser, not a real identity.
pub open spec fn uuid_text(n: nat) -> Seq<char> {
    "00000000-0000-0000-0000-"@ + zero_pad(spec_digits(n, 16), 12)
}

/// `(locked yes)` as an entry of its own for a locked item.
pub open spec fn locked_text(locked: bool) -> Seq<char> {
    if locked {
        entry(2, "locked"@, "yes"@)
    } else {
        Seq::empty()
    }
}

/// KiCad's name for layer `id`: `F.Cu` for layer 0, `B.Cu` otherwise.
pub open spec fn layer_name(id: LayerId) -> Seq<char> {
    if id.0 == 0 {
        "F.Cu"@
    } else {
        "B.Cu"@
    }
}

/// The `(segment ...)` entry for track `t` with UUID number `u`.
#[verifier::opaque]
pub open spec fn track_text(t: Track, u: nat) -> Seq<char> {
    opening(1, "segment"@) + entry(2, "start"@, xy_text(t.segment.a)) + entry(2, "end"@, xy_text(t.segment.b))
        + entry(2, "width"@, spec_mm6(t.width_nm as int)) + entry(2, "layer"@, quote(layer_name(t.layer))) + entry(
        2,
        "net"@,
        spec_decimal(t.net.0 as nat),
    ) + locked_text(t.locked) + entry(2, "uuid"@, quote(uuid_text(u))) + closing(1)
}

/// The `(via ...)` entry for via `v` with UUID number `u`.
#[verifier::opaque]
pub open spec fn via_text(v: Via, u: nat) -> Seq<char> {
    opening(1, "via"@) + entry(2, "at"@, xy_text(v.position)) + entry(2, "size"@, spec_mm6(v.diameter_nm as int))
        + entry(2, "drill"@, spec_mm6(v.drill_nm as int)) + entry(2, "layers"@, two(quote("F.Cu"@), quote("B.Cu"@)))
        + entry(2, "net"@, spec_decimal(v.net.0 as nat)) + locked_text(v.locked) + entry(
        2,
        "uuid"@,
        quote(uuid_text(u)),
    ) + closing(1)
}

/// The layer a pad's single-pad footprint goes on: its first layer,
/// `F.Cu` for a pad without layers.
pub open spec fn pad_layer_name(p: Pad) -> Seq<char> {
    if p.layers@.len() > 0 {
        layer_name(p.layers@[0])
    } else {
        "F.Cu"@
    }
}

/// The name of the net a pad is on, empty for a net the board lacks.
pub open spec fn pad_net_name(b: &Board, p: Pad) -> Seq<char> {
    match net_index(b.nets@, p.net) {
        Some(i) => b.nets@[i].name@,
        None => Seq::empty(),
    }
}

/// The `(pad "1" smd circle ...)` entry of pad `p`'s footprint, with UUID
/// number `u`.
pub open spec fn pad_entry_text(b: &Board, p: Pad, u: nat) -> Seq<char> {
    let d = spec_mm6(p.circle().radius_nm * 2);
    opening(2, "pad"@) + word(quote("1"@)) + word("smd"@) + word("circle"@) + entry(3, "at"@, two("0"@, "0"@))
        + entry(3, "size"@, two(d, d)) + entry(3, "layers"@, quote(pad_layer_name(p))) + entry(
        3,
        "net"@,
        two(spec_decimal(p.net.0 as nat), quote(pad_net_name(b, p))),
    ) + entry(3, "uuid"@, quote(uuid_text(u))) + closing(2)
}

/// The single-pad `(footprint ...)` entry for pad `p`, with UUID numbers
/// `u` (footprint) and `u + 1` (pad).
#[verifier::opaque]
pub open spec fn pad_text(b: &Board, p: Pad, u: nat) -> Seq<char> {
    opening(1, "footprint"@) + word(quote("tessera:single_pad"@)) + entry(2, "layer"@, quote(pad_layer_name(p)))
        + entry(2, "uuid"@, quote(uuid_text(u))) + entry(2, "at"@, xy_text(p.circle().center)) + locked_text(p.locked)
        + entry(2, "attr"@, "smd"@) + pad_entry_text(b, p, u + 1) + closing(1)
}

/// The `(general ...)` settings.
pub open spec fn general_text() -> Seq<char> {
    opening(1, "general"@) + entry(2, "thickness"@, "1.6"@) + closing(1)
}

/// The two copper layers, KiCad ordinals 0 and 2.
pub open spec fn layers_text() -> Seq<char> {
    opening(1, "layers"@) + entry(2, "0"@, two(quote("F.Cu"@), "signal"@)) + entry(2, "2"@, two(quote("B.Cu"@), "signal"@))
        + closing(1)
}

/// The `(setup ...)` settings.
pub open spec fn setup_text() -> Seq<char> {
    opening(1, "setup"@) + entry(2, "pad_to_mask_clearance"@, "0"@) + closing(1)
}

/// The declaration of one net.
pub open spec fn net_text(id: u32, name: Seq<char>) -> Seq<char> {
    entry(1, "net"@, two(spec_decimal(id as nat), quote(name)))
}

/// The fixed opening of every fixture board: header, general settings,
/// the two copper layers, setup, and net 0.
pub open spec fn pcb_header() -> Seq<char> {
    seq!['('] + "kicad_pcb"@ + entry(1, "version"@, "20241229"@) + entry(1, "generator"@, quote("tessera"@)) + entry(
        1,
        "generator_version"@,
        quote("0.1"@),
    ) + general_text() + entry(1, "paper"@, quote("A4"@)) + layers_text() + setup_text() + net_text(0, Seq::empty())
}

/// The declarations of the first `k` nets.
pub open spec fn nets_text(b: &Board, k: int) -> Seq<char>
    decreases k,
{
    if k <= 0 {
        Seq::empty()
    } else {
        nets_text(b, k - 1) + net_text(b.nets@[k - 1].id.0, b.nets@[k - 1].name@)
    }
}

/// The entries of the first `k` tracks, UUIDs numbered from `u0 + 1`.
pub open spec fn tracks_text(b: &Board, k: int, u0: nat) -> Seq<char>
    decreases k,
{
    if k <= 0 {
        Seq::empty()
    } else {
        tracks_text(b, k - 1, u0) + track_text(b.tracks@[k - 1], (u0 + k) as nat)
    }
}

/// The entries of the first `k` vias, UUIDs numbered from `u0 + 1`.
pub open spec fn vias_text(b: &Board, k: int, u0: nat) -> Seq<char>
    decreases k,
{
    if k <= 0 {
        Seq::empty()
    } else {
        vias_text(b, k - 1, u0) + via_text(b.vias@[k - 1], (u0 + k) as nat)
    }
}

/// The footprints of the first `k` pads, two UUIDs each, numbered from
/// `u0 + 1`.
pub open spec fn pads_text(b: &Board, k: int, u0: nat) -> Seq<char>
    decreases k,
{
    if k <= 0 {
        Seq::empty()
    } else {
        pads_text(b, k - 1, u0) + pad_text(b, b.pads@[k - 1], (u0 + 2 * k - 1) as nat)
    }
}

/// The whole `.kicad_pcb` text for `b`.
pub open spec fn pcb_text(b: &Board) -> Seq<char> {
    let nt = b.tracks@.len() as nat;
    let nv = b.vias@.len() as nat;
    pcb_header() + nets_text(b, b.nets@.len() as int) + tracks_text(b, nt as int, 0) + vias_text(b, nv as int, nt)
        + pads_text(b, b.pads@.len() as int, nt + nv) + closing(0)
}

fn push_indent(s: &mut String, k: usize)
    ensures
        final(s)@ == old(s)@ + indent(k as nat),
{
    let ghost s0 = s@;
    push_char(s, '\n');
    let mut i: usize = 0;
    while i < k
        invariant
            i <= k,
            s@ == s0 + seq!['\n'] + Seq::new(i as nat, |j: int| '\t'),
        decreases k - i,
    {
        push_char(s, '\t');
        i += 1;
        proof {
            assert(s@ =~= s0 + seq!['\n'] + Seq::new(i as nat, |j: int| '\t'));
        }
    }
    proof {
        assert(s@ =~= s0 + indent(k as nat));
    }
}

fn push_entry(s: &mut String, k: usize, tag: &str, value: &str)
    ensures
        final(s)@ == old(s)@ + entry(k as nat, tag@, value@),
{
    let mut e = String::new();
    push_indent(&mut e, k);
    push_char(&mut e, '(');
    push_str(&mut e, tag);
    push_char(&mut e, ' ');
    push_str(&mut e, value);
    push_char(&mut e, ')');
    proof {
        assert(e@ =~= entry(k as nat, tag@, value@));
    }
    push_str(s, e.as_str());
}

fn push_opening(s: &mut String, k: usize, tag: &str)
    ensures
        final(s)@ == old(s)@ + opening(k as nat, tag@),
{
    let mut e = String::new();
    push_indent(&mut e, k);
    push_char(&mut e, '(');
    push_str(&mut e, tag);
    proof {
        assert(e@ =~= opening(k as nat, tag@));
    }
    push_str(s, e.as_str());
}

fn push_closing(s: &mut String, k: usize)
    ensures
        final(s)@ == old(s)@ + closing(k as nat),
{
    let mut e = String::new();
    push_indent(&mut e, k);
    push_char(&mut e, ')');
    proof {
        assert(e@ =~= closing(k as nat));
    }
    push_str(s, e.as_str());
}

fn push_word(s: &mut String, w: &str)
    ensures
        final(s)@ == old(s)@ + word(w@),
{
    let mut e = String::new();
    push_char(&mut e, ' ');
    push_str(&mut e, w);
    proof {
        assert(e@ =~= word(w@));
    }
    push_str(s, e.as_str());
}

fn quoted_string(t: &str) -> (r: String)
    ensures
        r@ == quote(t@),
{
    let mut r = String::new();
    push_char(&mut r, '"');
    push_str(&mut r, t);
    push_char(&mut r, '"');
    proof {
        assert(r@ =~= quote(t@));
    }
    r
}

fn two_string(a: &str, b: &str) -> (r: String)
    ensures
        r@ == two(a@, b@),
{
    let mut r = String::new();
    push_str(&mut r, a);
    push_char(&mut r, ' ');
    push_str(&mut r, b);
    proof {
        assert(r@ =~= two(a@, b@));
    }
    r
}

fn mm_string(v: i64) -> (r: String)
    ensures
        r@ == spec_mm6(v as int),
{
    let mut r = String::new();
    push_mm6(&mut r, v);
    proof {
        assert(r@ =~= spec_mm6(v as int));
    }
    r
}

fn decimal_string(n: u64) -> (r: String)
    ensures
        r@ == spec_decimal(n as nat),
{
    let mut r = String::new();
    push_digits(&mut r, n, 10);
    proof {
        assert(r@ =~= spec_decimal(n as nat));
    }
    r
}

fn xy_string(p: Point) -> (r: String)
    ensures
        r@ == xy_text(p),
{
    two_string(mm_string(p.x).as_str(), mm_string(p.y).as_str())
}

fn uuid_string(n: u64) -> (r: String)
    ensures
        r@ == quote(uuid_text(n as nat)),
{
    let mut u = String::new();
    push_str(&mut u, "00000000-0000-0000-0000-");
    proof {
        assert(u@ =~= "00000000-0000-0000-0000-"@);
    }
    push_padded(&mut u, n, 16, 12);
    quoted_string(u.as_str())
}

fn push_locked(s: &mut String, locked: bool)
    ensures
        final(s)@ == old(s)@ + locked_text(locked),
{
    if locked {
        push_entry(s, 2, "locked", "yes");
    } else {
        proof {
            assert(s@ =~= s@ + locked_text(locked));
        }
    }
}

fn kicad_layer_name(id: LayerId) -> (r: &'static str)
    ensures
        r@ == layer_name(id),
{
    if id.0 == 0 {
        "F.Cu"
    } else {
        "B.Cu"
    }
}

fn push_track(s: &mut String, t: &Track, u: u64)
    ensures
        final(s)@ == old(s)@ + track_text(*t, u as nat),
{
    let mut out = String::new();
    push_opening(&mut out, 1, "segment");
    proof {
        assert(out@ =~= opening(1, "segment"@));
    }
    push_entry(&mut out, 2, "start", xy_string(t.segment.a).as_str());
    push_entry(&mut out, 2, "end", xy_string(t.segment.b).as_str());
    push_entry(&mut out, 2, "width", mm_string(t.width_nm).as_str());
    push_entry(&mut out, 2, "layer", quoted_string(kicad_layer_name(t.layer)).as_str());
    push_entry(&mut out, 2, "net", decimal_string(t.net.0 as u64).as_str());
    push_locked(&mut out, t.locked);
    push_entry(&mut out, 2, "uuid", uuid_string(u).as_str());
    push_closing(&mut out, 1);
    push_str(s, out.as_str());
    proof {
        reveal(track_text);
    }
}

fn push_via(s: &mut String, v: &Via, u: u64)
    ensures
        final(s)@ == old(s)@ + via_text(*v, u as nat),
{
    let mut out = String::new();
    push_opening(&mut out, 1, "via");
    proof {
        assert(out@ =~= opening(1, "via"@));
    }
    push_entry(&mut out, 2, "at", xy_string(v.position).as_str());
    push_entry(&mut out, 2, "size", mm_string(v.diameter_nm).as_str());
    push_entry(&mut out, 2, "drill", mm_string(v.drill_nm).as_str());
    push_entry(&mut out, 2, "layers", two_string(quoted_string("F.Cu").as_str(), quoted_string("B.Cu").as_str()).as_str());
    push_entry(&mut out, 2, "net", decimal_string(v.net.0 as u64).as_str());
    push_locked(&mut out, v.locked);
    push_entry(&mut out, 2, "uuid", uuid_string(u).as_str());
    push_closing(&mut out, 1);
    push_str(s, out.as_str());
    proof {
        reveal(via_text);
    }
}

fn push_pad_entry(s: &mut String, b: &Board, p: &Pad, layer: &str, net_name: &str, u: u64)
    requires
        i64::MIN <= p.circle().radius_nm * 2 <= i64::MAX,
        layer@ == pad_layer_name(*p),
        net_name@ == pad_net_name(b, *p),
    ensures
        final(s)@ == old(s)@ + pad_entry_text(b, *p, u as nat),
{
    let PadShape::Circle(circle) = p.shape;
    let d = mm_string(circle.radius_nm * 2);
    let mut out = String::new();
    push_opening(&mut out, 2, "pad");
    proof {
        assert(out@ =~= opening(2, "pad"@));
    }
    push_word(&mut out, quoted_string("1").as_str());
    push_word(&mut out, "smd");
    push_word(&mut out, "circle");
    push_entry(&mut out, 3, "at", two_string("0", "0").as_str());
    push_entry(&mut out, 3, "size", two_string(d.as_str(), d.as_str()).as_str());
    push_entry(&mut out, 3, "layers", quoted_string(layer).as_str());
    push_entry(&mut out, 3, "net", two_string(decimal_string(p.net.0 as u64).as_str(), quoted_string(net_name).as_str()).as_str());
    push_entry(&mut out, 3, "uuid", uuid_string(u).as_str());
    push_closing(&mut out, 2);
    push_str(s, out.as_str());
}

fn push_pad(s: &mut String, b: &Board, p: &Pad, u: u64)
    requires
        u < u64::MAX,
        i64::MIN <= p.circle().radius_nm * 2 <= i64::MAX,
    ensures
        final(s)@ == old(s)@ + pad_text(b, *p, u as nat),
{
    let PadShape::Circle(circle) = p.shape;
    let layer: &str = if p.layers.len() > 0 {
        kicad_layer_name(p.layers[0])
    } else {
        "F.Cu"
    };
    let net_name: &str = match b.find_net(p.net) {
        Some(i) => b.nets[i].name.as_str(),
        None => {
            proof {
                reveal_strlit("");
            }
            ""
        },
    };
    assert(layer@ == pad_layer_name(*p));
    assert(net_name@ == pad_net_name(b, *p));
    let mut out = String::new();
    push_opening(&mut out, 1, "footprint");
    proof {
        assert(out@ =~= opening(1, "footprint"@));
    }
    push_word(&mut out, quoted_string("tessera:single_pad").as_str());
    push_entry(&mut out, 2, "layer", quoted_string(layer).as_str());
    push_entry(&mut out, 2, "uuid", uuid_string(u).as_str());
    push_entry(&mut out, 2, "at", xy_string(circle.center).as_str());
    push_locked(&mut out, p.locked);
    push_entry(&mut out, 2, "attr", "smd");
    push_pad_entry(&mut out, b, p, layer, net_name, u + 1);
    push_closing(&mut out, 1);
    push_str(s, out.as_str());
    proof {
        reveal(pad_text);
    }
}

fn push_header(s: &mut String)
    ensures
        final(s)@ == old(s)@ + pcb_header(),
{
    let mut out = String::new();
    push_char(&mut out, '(');
    push_str(&mut out, "kicad_pcb");
    proof {
        assert(out@ =~= seq!['('] + "kicad_pcb"@);
    }
    push_entry(&mut out, 1, "version", "20241229");
    push_entry(&mut out, 1, "generator", quoted_string("tessera").as_str());
    push_entry(&mut out, 1, "generator_version", quoted_string("0.1").as_str());
    let mut general = String::new();
    push_opening(&mut general, 1, "general");
    proof {
        assert(general@ =~= opening(1, "general"@));
    }
    push_entry(&mut general, 2, "thickness", "1.6");
    push_closing(&mut general, 1);
    push_str(&mut out, general.as_str());
    push_entry(&mut out, 1, "paper", quoted_string("A4").as_str());
    let mut layers = String::new();
    push_opening(&mut layers, 1, "layers");
    proof {
        assert(layers@ =~= opening(1, "layers"@));
    }
    push_entry(&mut layers, 2, "0", two_string(quoted_string("F.Cu").as_str(), "signal").as_str());
    push_entry(&mut layers, 2, "2", two_string(quoted_string("B.Cu").as_str(), "signal").as_str());
    push_closing(&mut layers, 1);
    push_str(&mut out, layers.as_str());
    let mut setup = String::new();
    push_opening(&mut setup, 1, "setup");
    proof {
        assert(setup@ =~= opening(1, "setup"@));
    }
    push_entry(&mut setup, 2, "pad_to_mask_clearance", "0");
    push_closing(&mut setup, 1);
    push_str(&mut out, setup.as_str());
    proof {
        reveal_strlit("");
    }
    push_entry(&mut out, 1, "net", two_string(decimal_string(0).as_str(), quoted_string("").as_str()).as_str());
    push_str(s, out.as_str());
}

/// One net class as a JSON object on a line of its own; lengths in
/// millimetres.
pub open spec fn class_json(c: NetClass) -> Seq<char> {
    "      { \"name\": \""@ + c.name@ + "\", \"clearance\": "@ + spec_mm_short(c.clearance_nm as int)
        + ", \"track_width\": "@ + spec_mm_short(c.track_width_nm as int) + ", \"via_diameter\": "@
        + spec_mm_short(c.via_diameter_nm as int) + ", \"via_drill\": "@ + spec_mm_short(c.via_drill_nm as int)
        + " }"@
}

fn push_class_json(s: &mut String, c: &NetClass)
    ensures
        final(s)@ == old(s)@ + class_json(*c),
{
    let mut out = String::new();
    push_str(&mut out, "      { \"name\": \"");
    proof {
        assert(out@ =~= "      { \"name\": \""@);
    }
    push_str(&mut out, c.name.as_str());
    push_str(&mut out, "\", \"clearance\": ");
    push_mm_short(&mut out, c.clearance_nm);
    push_str(&mut out, ", \"track_width\": ");
    push_mm_short(&mut out, c.track_width_nm);
    push_str(&mut out, ", \"via_diameter\": ");
    push_mm_short(&mut out, c.via_diameter_nm);
    push_str(&mut out, ", \"via_drill\": ");
    push_mm_short(&mut out, c.via_drill_nm);
    push_str(&mut out, " }");
    push_str(s, out.as_str());
}

/// The first `k` classes as JSON objects separated by `",\n"`.
pub open spec fn classes_json(cs: Seq<NetClass>, k: int) -> Seq<char>
    decreases k,
{
    if k <= 0 {
        Seq::empty()
    } else if k == 1 {
        class_json(cs[0])
    } else {
        classes_json(cs, k - 1) + ",\n"@ + class_json(cs[k - 1])
    }
}

/// The `.kicad_pro` text for `b`: its net classes, and every board-level
/// minimum rule pinned to zero so only net-class clearance is exercised.
pub open spec fn pro_text(b: &Board) -> Seq<char> {
    "{\n  \"net_settings\": {\n    \"classes\": [\n"@ + classes_json(b.net_classes@, b.net_classes@.len() as int)
        + "\n    ],\n    \"meta\": { \"version\": 4 },\n    \"net_colors\": null,\n    \"netclass_assignments\": null,\n    \"netclass_patterns\": []\n  },\n  \"board\": { \"design_settings\": { \"rules\": { \"min_clearance\": 0.0, \"min_track_width\": 0.0, \"min_via_diameter\": 0.0, \"min_through_hole_diameter\": 0.0, \"min_hole_to_hole\": 0.0, \"min_copper_edge_clearance\": 0.0 } } }\n}\n"@
}

fn write_project(board: &Board) -> (r: String)
    ensures
        r@ == pro_text(board),
{
    let mut classes = String::new();
    let mut i: usize = 0;
    while i < board.net_classes.len()
        invariant
            i <= board.net_classes@.len(),
            classes@ == classes_json(board.net_classes@, i as int),
        decreases board.net_classes@.len() - i,
    {
        if i > 0 {
            push_str(&mut classes, ",\n");
        }
        push_class_json(&mut classes, &board.net_classes[i]);
        proof {
            if i == 0 {
                assert(classes@ =~= classes_json(board.net_classes@, 1));
            } else {
                assert(classes@ =~= classes_json(board.net_classes@, i + 1));
            }
        }
        i += 1;
    }
    let mut out = String::new();
    push_str(&mut out, "{\n  \"net_settings\": {\n    \"classes\": [\n");
    push_str(&mut out, classes.as_str());
    push_str(
        &mut out,
        "\n    ],\n    \"meta\": { \"version\": 4 },\n    \"net_colors\": null,\n    \"netclass_assignments\": null,\n    \"netclass_patterns\": []\n  },\n  \"board\": { \"design_settings\": { \"rules\": { \"min_clearance\": 0.0, \"min_track_width\": 0.0, \"min_via_diameter\": 0.0, \"min_through_hole_diameter\": 0.0, \"min_hole_to_hole\": 0.0, \"min_copper_edge_clearance\": 0.0 } } }\n}\n",
    );
    proof {
        assert(out@ =~= pro_text(board));
    }
    out
}

fn push_nets(s: &mut String, board: &Board)
    ensures
        final(s)@ == old(s)@ + nets_text(board, board.nets@.len() as int),
{
    let ghost s0 = s@;
    let mut i: usize = 0;
    proof {
        assert(s@ =~= s0 + nets_text(board, 0));
    }
    while i < board.nets.len()
        invariant
            i <= board.nets@.len(),
            s@ == s0 + nets_text(board, i as int),
        decreases board.nets@.len() - i,
    {
        let net = &board.nets[i];
        let mut line = String::new();
        push_entry(
            &mut line,
            1,
            "net",
            two_string(decimal_string(net.id.0 as u64).as_str(), quoted_string(net.name.as_str()).as_str()).as_str(),
        );
        proof {
            assert(line@ =~= net_text(net.id.0, net.name@));
        }
        push_str(s, line.as_str());
        proof {
            assert(s@ =~= s0 + nets_text(board, i + 1));
        }
        i += 1;
    }
}

fn push_tracks(s: &mut String, board: &Board)
    requires
        board.tracks@.len() < u64::MAX,
    ensures
        final(s)@ == old(s)@ + tracks_text(board, board.tracks@.len() as int, 0),
{
    let ghost s0 = s@;
    let mut t: usize = 0;
    proof {
        assert(s@ =~= s0 + tracks_text(board, 0, 0));
    }
    while t < board.tracks.len()
        invariant
            t <= board.tracks@.len() < u64::MAX,
            s@ == s0 + tracks_text(board, t as int, 0),
        decreases board.tracks@.len() - t,
    {
        push_track(s, &board.tracks[t], (t + 1) as u64);
        proof {
            assert(s@ =~= s0 + tracks_text(board, t + 1, 0));
        }
        t += 1;
    }
}

fn push_vias(s: &mut String, board: &Board, u0: u64)
    requires
        u0 + board.vias@.len() < u64::MAX,
    ensures
        final(s)@ == old(s)@ + vias_text(board, board.vias@.len() as int, u0 as nat),
{
    let ghost s0 = s@;
    let mut v: usize = 0;
    proof {
        assert(s@ =~= s0 + vias_text(board, 0, u0 as nat));
    }
    while v < board.vias.len()
        invariant
            v <= board.vias@.len(),
            u0 + board.vias@.len() < u64::MAX,
            s@ == s0 + vias_text(board, v as int, u0 as nat),
        decreases board.vias@.len() - v,
    {
        push_via(s, &board.vias[v], u0 + (v as u64) + 1);
        proof {
            assert(s@ =~= s0 + vias_text(board, v + 1, u0 as nat));
        }
        v += 1;
    }
}

fn push_pads(s: &mut String, board: &Board, u0: u64)
    requires
        u0 + 2 * board.pads@.len() < u64::MAX,
        forall|i: int|
            0 <= i < board.pads@.len() ==> i64::MIN <= (#[trigger] board.pads@[i]).circle().radius_nm * 2 <= i64::MAX,
    ensures
        final(s)@ == old(s)@ + pads_text(board, board.pads@.len() as int, u0 as nat),
{
    let ghost s0 = s@;
    let mut p: usize = 0;
    proof {
        assert(s@ =~= s0 + pads_text(board, 0, u0 as nat));
    }
    while p < board.pads.len()
        invariant
            p <= board.pads@.len(),
            u0 + 2 * board.pads@.len() < u64::MAX,
            forall|i: int|
                0 <= i < board.pads@.len() ==> i64::MIN <= (#[trigger] board.pads@[i]).circle().radius_nm * 2
                    <= i64::MAX,
            s@ == s0 + pads_text(board, p as int, u0 as nat),
        decreases board.pads@.len() - p,
    {
        proof {
            assert(board.pads@[p as int].circle().radius_nm * 2 <= i64::MAX);
        }
        push_pad(s, board, &board.pads[p], u0 + 2 * (p as u64) + 1);
        proof {
            vstd::seq_lib::lemma_concat_associative(
                s0,
                pads_text(board, p as int, u0 as nat),
                pad_text(board, board.pads@[p as int], (u0 + 2 * (p + 1) - 1) as nat),
            );
        }
        p += 1;
    }
}

/// Renders `board` as `(pcb_text, pro_text)`, the contents of a
/// `<name>.kicad_pcb` and a `<name>.kicad_pro` to be written side by side
/// (KiCad pairs a board with its project by file stem) before running
/// `kicad-cli pcb drc` on the board. Only boards with at most two layers
/// are supported.
pub fn write_fixture(board: &Board) -> (r: (String, String))
    requires
        board.layers@.len() <= 2,
        board.tracks@.len() + board.vias@.len() + 2 * board.pads@.len() < u64::MAX,
        forall|i: int|
            0 <= i < board.pads@.len() ==> i64::MIN <= (#[trigger] board.pads@[i]).circle().radius_nm * 2 <= i64::MAX,
    ensures
        r.0@ == pcb_text(board),
        r.1@ == pro_text(board),
{
    let mut pcb = String::new();
    push_header(&mut pcb);
    proof {
        assert(pcb@ =~= pcb_header());
    }
    push_nets(&mut pcb, board);
    push_tracks(&mut pcb, board);
    let nt = board.tracks.len() as u64;
    push_vias(&mut pcb, board, nt);
    let nv = board.vias.len() as u64;
    push_pads(&mut pcb, board, nt + nv);
    push_closing(&mut pcb, 0);
    let pro = write_project(board);
    (pcb, pro)
}

} // verus!
