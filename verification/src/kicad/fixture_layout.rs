//! The fixture writer's board text as an S-expression layout: the text
//! `pcb_text` writes is the text of `pcb_layout`, whose every atom can be
//! read back, so the reader gives back the expression the layout denotes.

use vstd::prelude::*;

use crate::kicad::fixture::{
    entry, general_text, indent, layer_name, layers_text, locked_text, net_text, nets_text, opening, pad_entry_text,
    pad_layer_name, pad_net_name, pad_text, pads_text, pcb_header, pcb_text, setup_text, track_text, tracks_text, two,
    uuid_text, via_text, vias_text,
};
use crate::kicad::sexpr::{
    all_ws, bare_ok, delim, itext, iwf, lemma_layout_parses, ltext, lview, lwf, quote_ok, spec_parse, ws_end, Layout,
    SexprView,
};
use crate::model::board::{is_first_net, net_index, Board};
use crate::model::items::{Pad, Track, Via};
use crate::text::{abs_int, char_is_whitespace, digit_char, spec_decimal, spec_digits, spec_mm6, zero_pad};

verus! {

/// The layout of the list `(tag value)`.
pub open spec fn pair(tag: Seq<char>, value: Layout) -> Layout {
    Layout::List(seq![(Seq::<char>::empty(), Layout::Bare(tag)), (seq![' '], value)], Seq::empty())
}

/// The layout of the list `(tag a b)`.
pub open spec fn triple(tag: Seq<char>, a: Layout, b: Layout) -> Layout {
    Layout::List(
        seq![(Seq::<char>::empty(), Layout::Bare(tag)), (seq![' '], a), (seq![' '], b)],
        Seq::empty(),
    )
}

/// The tag of a list, right after its opening parenthesis.
pub open spec fn tag_item(tag: Seq<char>) -> (Seq<char>, Layout) {
    (Seq::empty(), Layout::Bare(tag))
}

/// An item on a line of its own, nested `k` deep.
pub open spec fn line(k: nat, d: Layout) -> (Seq<char>, Layout) {
    (indent(k), d)
}

/// A point as the list `(tag x y)`.
pub open spec fn xy_layout(tag: Seq<char>, x: i64, y: i64) -> Layout {
    triple(tag, Layout::Bare(spec_mm6(x as int)), Layout::Bare(spec_mm6(y as int)))
}

/// The `(locked yes)` item of a locked entry.
pub open spec fn locked_items(locked: bool) -> Seq<(Seq<char>, Layout)> {
    if locked {
        seq![line(2, pair("locked"@, Layout::Bare("yes"@)))]
    } else {
        Seq::empty()
    }
}

/// The layout `track_text` writes for track `t` with UUID number `u`.
pub open spec fn track_layout(t: Track, u: nat) -> Layout {
    Layout::List(
        seq![
            tag_item("segment"@),
            line(2, xy_layout("start"@, t.segment.a.x, t.segment.a.y)),
            line(2, xy_layout("end"@, t.segment.b.x, t.segment.b.y)),
            line(2, pair("width"@, Layout::Bare(spec_mm6(t.width_nm as int)))),
            line(2, pair("layer"@, Layout::Quoted(layer_name(t.layer)))),
            line(2, pair("net"@, Layout::Bare(spec_decimal(t.net.0 as nat)))),
        ] + locked_items(t.locked) + seq![line(2, pair("uuid"@, Layout::Quoted(uuid_text(u))))],
        indent(1),
    )
}

proof fn lemma_step(items: Seq<(Seq<char>, Layout)>, k: int, n: nat, p: Seq<char>)
    requires
        1 <= k <= items.len(),
    ensures
        p + itext(items, k, n + 1) == (p + itext(items, k - 1, n + 1)) + (items[k - 1].0 + ltext(items[k - 1].1, n)),
{
    let a = itext(items, k - 1, n + 1);
    assert(p + (a + items[k - 1].0 + ltext(items[k - 1].1, n)) =~= (p + a) + (items[k - 1].0 + ltext(
        items[k - 1].1,
        n,
    )));
}

proof fn lemma_first(items: Seq<(Seq<char>, Layout)>, tag: Seq<char>, n: nat)
    requires
        items.len() >= 1,
        items[0] == tag_item(tag),
    ensures
        itext(items, 1, n + 1) == tag,
{
    assert(itext(items, 0, n + 1) + items[0].0 + ltext(items[0].1, n) =~= tag);
}

proof fn lemma_close(pre: Seq<char>, body: Seq<char>, tw: Seq<char>)
    ensures
        pre + (seq!['('] + body + tw + seq![')']) == (pre + seq!['('] + body) + (tw + seq![')']),
{
    assert(pre + (seq!['('] + body + tw + seq![')']) =~= (pre + seq!['('] + body) + (tw + seq![')']));
}

proof fn lemma_add_empty(x: Seq<char>)
    ensures
        x + Seq::<char>::empty() == x,
{
    assert(x + Seq::<char>::empty() =~= x);
}

proof fn lemma_wrap(body: Seq<char>, tw: Seq<char>)
    ensures
        seq!['('] + body + tw + seq![')'] == (seq!['('] + body) + (tw + seq![')']),
{
    assert(seq!['('] + body + tw + seq![')'] =~= (seq!['('] + body) + (tw + seq![')']));
}

proof fn lemma_pair_entry(k: nat, tag: Seq<char>, d: Layout, m: nat)
    ensures
        indent(k) + ltext(pair(tag, d), m + 1) == entry(k, tag, ltext(d, m)),
{
    let items = seq![(Seq::<char>::empty(), Layout::Bare(tag)), (seq![' '], d)];
    assert(itext(items, 1, m + 1) =~= tag) by {
        lemma_first(items, tag, m);
    }
    assert(itext(items, 2, m + 1) == itext(items, 1, m + 1) + seq![' '] + ltext(d, m));
    assert(indent(k) + ltext(pair(tag, d), m + 1) =~= entry(k, tag, ltext(d, m)));
}

proof fn lemma_triple_entry(k: nat, tag: Seq<char>, a: Layout, b: Layout, m: nat)
    ensures
        indent(k) + ltext(triple(tag, a, b), m + 1) == entry(k, tag, two(ltext(a, m), ltext(b, m))),
{
    let items = seq![(Seq::<char>::empty(), Layout::Bare(tag)), (seq![' '], a), (seq![' '], b)];
    assert(itext(items, 1, m + 1) =~= tag) by {
        lemma_first(items, tag, m);
    }
    assert(itext(items, 2, m + 1) == itext(items, 1, m + 1) + seq![' '] + ltext(a, m));
    assert(itext(items, 3, m + 1) == itext(items, 2, m + 1) + seq![' '] + ltext(b, m));
    assert(indent(k) + ltext(triple(tag, a, b), m + 1) =~= entry(k, tag, two(ltext(a, m), ltext(b, m))));
}

/// The track entry is the text of its layout.
proof fn lemma_track_text(t: Track, u: nat, m: nat)
    ensures
        indent(1) + ltext(track_layout(t, u), m + 2) == track_text(t, u),
{
    reveal(track_text);
    let items = match track_layout(t, u) {
        Layout::List(items, _) => items,
        _ => Seq::empty(),
    };
    let p = indent(1) + seq!['('];
    lemma_first(items, "segment"@, m + 1);
    lemma_triple_entry(2, "start"@, Layout::Bare(spec_mm6(t.segment.a.x as int)), Layout::Bare(spec_mm6(t.segment.a.y as int)), m);
    lemma_triple_entry(2, "end"@, Layout::Bare(spec_mm6(t.segment.b.x as int)), Layout::Bare(spec_mm6(t.segment.b.y as int)), m);
    lemma_pair_entry(2, "width"@, Layout::Bare(spec_mm6(t.width_nm as int)), m);
    lemma_pair_entry(2, "layer"@, Layout::Quoted(layer_name(t.layer)), m);
    lemma_pair_entry(2, "net"@, Layout::Bare(spec_decimal(t.net.0 as nat)), m);
    lemma_pair_entry(2, "locked"@, Layout::Bare("yes"@), m);
    lemma_pair_entry(2, "uuid"@, Layout::Quoted(uuid_text(u)), m);
    lemma_step(items, 2, m + 1, p);
    lemma_step(items, 3, m + 1, p);
    lemma_step(items, 4, m + 1, p);
    lemma_step(items, 5, m + 1, p);
    lemma_step(items, 6, m + 1, p);
    lemma_step(items, 7, m + 1, p);
    lemma_close(indent(1), itext(items, items.len() as int, m + 2), indent(1));
    if t.locked {
        lemma_step(items, 8, m + 1, p);
    } else {
        let q = p + itext(items, 6, m + 2);
        assert(q + locked_text(t.locked) =~= q);
    }
}


/// The layout `via_text` writes for via `v` with UUID number `u`.
pub open spec fn via_layout(v: Via, u: nat) -> Layout {
    Layout::List(
        seq![
            tag_item("via"@),
            line(2, xy_layout("at"@, v.position.x, v.position.y)),
            line(2, pair("size"@, Layout::Bare(spec_mm6(v.diameter_nm as int)))),
            line(2, pair("drill"@, Layout::Bare(spec_mm6(v.drill_nm as int)))),
            line(2, triple("layers"@, Layout::Quoted("F.Cu"@), Layout::Quoted("B.Cu"@))),
            line(2, pair("net"@, Layout::Bare(spec_decimal(v.net.0 as nat)))),
        ] + locked_items(v.locked) + seq![line(2, pair("uuid"@, Layout::Quoted(uuid_text(u))))],
        indent(1),
    )
}

/// The via entry is the text of its layout.
proof fn lemma_via_text(v: Via, u: nat, m: nat)
    ensures
        indent(1) + ltext(via_layout(v, u), m + 2) == via_text(v, u),
{
    reveal(via_text);
    let items = match via_layout(v, u) {
        Layout::List(items, _) => items,
        _ => Seq::empty(),
    };
    let p = indent(1) + seq!['('];
    lemma_first(items, "via"@, m + 1);
    lemma_triple_entry(2, "at"@, Layout::Bare(spec_mm6(v.position.x as int)), Layout::Bare(spec_mm6(v.position.y as int)), m);
    lemma_pair_entry(2, "size"@, Layout::Bare(spec_mm6(v.diameter_nm as int)), m);
    lemma_pair_entry(2, "drill"@, Layout::Bare(spec_mm6(v.drill_nm as int)), m);
    lemma_triple_entry(2, "layers"@, Layout::Quoted("F.Cu"@), Layout::Quoted("B.Cu"@), m);
    lemma_pair_entry(2, "net"@, Layout::Bare(spec_decimal(v.net.0 as nat)), m);
    lemma_pair_entry(2, "locked"@, Layout::Bare("yes"@), m);
    lemma_pair_entry(2, "uuid"@, Layout::Quoted(uuid_text(u)), m);
    lemma_step(items, 2, m + 1, p);
    lemma_step(items, 3, m + 1, p);
    lemma_step(items, 4, m + 1, p);
    lemma_step(items, 5, m + 1, p);
    lemma_step(items, 6, m + 1, p);
    lemma_step(items, 7, m + 1, p);
    lemma_close(indent(1), itext(items, items.len() as int, m + 2), indent(1));
    if v.locked {
        lemma_step(items, 8, m + 1, p);
    } else {
        let q = p + itext(items, 6, m + 2);
        assert(q + locked_text(v.locked) =~= q);
    }
}

/// The layout `pad_entry_text` writes.
pub open spec fn pad_entry_layout(b: &Board, p: Pad, u: nat) -> Layout {
    let d = spec_mm6(p.circle().radius_nm * 2);
    Layout::List(
        seq![
            tag_item("pad"@),
            (seq![' '], Layout::Quoted("1"@)),
            (seq![' '], Layout::Bare("smd"@)),
            (seq![' '], Layout::Bare("circle"@)),
            line(3, triple("at"@, Layout::Bare("0"@), Layout::Bare("0"@))),
            line(3, triple("size"@, Layout::Bare(d), Layout::Bare(d))),
            line(3, pair("layers"@, Layout::Quoted(pad_layer_name(p)))),
            line(3, triple("net"@, Layout::Bare(spec_decimal(p.net.0 as nat)), Layout::Quoted(pad_net_name(b, p)))),
            line(3, pair("uuid"@, Layout::Quoted(uuid_text(u)))),
        ],
        indent(2),
    )
}

proof fn lemma_pad_entry_text(b: &Board, p: Pad, u: nat, m: nat)
    ensures
        indent(2) + ltext(pad_entry_layout(b, p, u), m + 2) == pad_entry_text(b, p, u),
{
    let items = match pad_entry_layout(b, p, u) {
        Layout::List(items, _) => items,
        _ => Seq::empty(),
    };
    let q = indent(2) + seq!['('];
    let d = spec_mm6(p.circle().radius_nm * 2);
    lemma_first(items, "pad"@, m + 1);
    lemma_triple_entry(3, "at"@, Layout::Bare("0"@), Layout::Bare("0"@), m);
    lemma_triple_entry(3, "size"@, Layout::Bare(d), Layout::Bare(d), m);
    lemma_pair_entry(3, "layers"@, Layout::Quoted(pad_layer_name(p)), m);
    lemma_triple_entry(3, "net"@, Layout::Bare(spec_decimal(p.net.0 as nat)), Layout::Quoted(pad_net_name(b, p)), m);
    lemma_pair_entry(3, "uuid"@, Layout::Quoted(uuid_text(u)), m);
    lemma_step(items, 2, m + 1, q);
    lemma_step(items, 3, m + 1, q);
    lemma_step(items, 4, m + 1, q);
    lemma_step(items, 5, m + 1, q);
    lemma_step(items, 6, m + 1, q);
    lemma_step(items, 7, m + 1, q);
    lemma_step(items, 8, m + 1, q);
    lemma_step(items, 9, m + 1, q);
    lemma_close(indent(2), itext(items, 9, m + 2), indent(2));
}

/// The layout `pad_text` writes for pad `p` with UUID numbers from `u`.
pub open spec fn pad_layout(b: &Board, p: Pad, u: nat) -> Layout {
    Layout::List(
        seq![
            tag_item("footprint"@),
            (seq![' '], Layout::Quoted("tessera:single_pad"@)),
            line(2, pair("layer"@, Layout::Quoted(pad_layer_name(p)))),
            line(2, pair("uuid"@, Layout::Quoted(uuid_text(u)))),
            line(2, xy_layout("at"@, p.circle().center.x, p.circle().center.y)),
        ] + locked_items(p.locked) + seq![
            line(2, pair("attr"@, Layout::Bare("smd"@))),
            line(2, pad_entry_layout(b, p, u + 1)),
        ],
        indent(1),
    )
}

proof fn lemma_pad_text(b: &Board, p: Pad, u: nat, m: nat)
    ensures
        indent(1) + ltext(pad_layout(b, p, u), m + 3) == pad_text(b, p, u),
{
    reveal(pad_text);
    let items = match pad_layout(b, p, u) {
        Layout::List(items, _) => items,
        _ => Seq::empty(),
    };
    let q = indent(1) + seq!['('];
    let c = p.circle().center;
    lemma_first(items, "footprint"@, m + 2);
    lemma_pair_entry(2, "layer"@, Layout::Quoted(pad_layer_name(p)), m + 1);
    lemma_pair_entry(2, "uuid"@, Layout::Quoted(uuid_text(u)), m + 1);
    lemma_triple_entry(2, "at"@, Layout::Bare(spec_mm6(c.x as int)), Layout::Bare(spec_mm6(c.y as int)), m + 1);
    lemma_pair_entry(2, "locked"@, Layout::Bare("yes"@), m + 1);
    lemma_pair_entry(2, "attr"@, Layout::Bare("smd"@), m + 1);
    lemma_pad_entry_text(b, p, u + 1, m);
    lemma_step(items, 2, m + 2, q);
    lemma_step(items, 3, m + 2, q);
    lemma_step(items, 4, m + 2, q);
    lemma_step(items, 5, m + 2, q);
    lemma_step(items, 6, m + 2, q);
    lemma_step(items, 7, m + 2, q);
    lemma_close(indent(1), itext(items, items.len() as int, m + 3), indent(1));
    if p.locked {
        lemma_step(items, 8, m + 2, q);
    } else {
        let r = q + itext(items, 5, m + 3);
        assert(r + locked_text(p.locked) =~= r);
    }
}

/// The layout of the `(general ...)` settings.
pub open spec fn general_layout() -> Layout {
    Layout::List(seq![tag_item("general"@), line(2, pair("thickness"@, Layout::Bare("1.6"@)))], indent(1))
}

/// The layout of the copper layer table.
pub open spec fn layers_layout() -> Layout {
    Layout::List(
        seq![
            tag_item("layers"@),
            line(2, triple("0"@, Layout::Quoted("F.Cu"@), Layout::Bare("signal"@))),
            line(2, triple("2"@, Layout::Quoted("B.Cu"@), Layout::Bare("signal"@))),
        ],
        indent(1),
    )
}

/// The layout of the `(setup ...)` settings.
pub open spec fn setup_layout() -> Layout {
    Layout::List(seq![tag_item("setup"@), line(2, pair("pad_to_mask_clearance"@, Layout::Bare("0"@)))], indent(1))
}

proof fn lemma_settings_text(m: nat)
    ensures
        indent(1) + ltext(general_layout(), m + 2) == general_text(),
        indent(1) + ltext(layers_layout(), m + 2) == layers_text(),
        indent(1) + ltext(setup_layout(), m + 2) == setup_text(),
{
    let q = indent(1) + seq!['('];
    let g = match general_layout() {
        Layout::List(items, _) => items,
        _ => Seq::empty(),
    };
    lemma_first(g, "general"@, m + 1);
    lemma_pair_entry(2, "thickness"@, Layout::Bare("1.6"@), m);
    lemma_step(g, 2, m + 1, q);
    lemma_close(indent(1), itext(g, 2, m + 2), indent(1));
    let l = match layers_layout() {
        Layout::List(items, _) => items,
        _ => Seq::empty(),
    };
    lemma_first(l, "layers"@, m + 1);
    lemma_triple_entry(2, "0"@, Layout::Quoted("F.Cu"@), Layout::Bare("signal"@), m);
    lemma_triple_entry(2, "2"@, Layout::Quoted("B.Cu"@), Layout::Bare("signal"@), m);
    lemma_step(l, 2, m + 1, q);
    lemma_step(l, 3, m + 1, q);
    lemma_close(indent(1), itext(l, 3, m + 2), indent(1));
    let s = match setup_layout() {
        Layout::List(items, _) => items,
        _ => Seq::empty(),
    };
    lemma_first(s, "setup"@, m + 1);
    lemma_pair_entry(2, "pad_to_mask_clearance"@, Layout::Bare("0"@), m);
    lemma_step(s, 2, m + 1, q);
    lemma_close(indent(1), itext(s, 2, m + 2), indent(1));
}


/// The layout of the declaration of net `id` named `name`.
pub open spec fn net_layout(id: u32, name: Seq<char>) -> Layout {
    triple("net"@, Layout::Bare(spec_decimal(id as nat)), Layout::Quoted(name))
}

/// The items of the board header after its tag.
pub open spec fn header_items() -> Seq<(Seq<char>, Layout)> {
    seq![
        line(1, pair("version"@, Layout::Bare("20241229"@))),
        line(1, pair("generator"@, Layout::Quoted("tessera"@))),
        line(1, pair("generator_version"@, Layout::Quoted("0.1"@))),
        line(1, general_layout()),
        line(1, pair("paper"@, Layout::Quoted("A4"@))),
        line(1, layers_layout()),
        line(1, setup_layout()),
        line(1, net_layout(0, Seq::empty())),
    ]
}

pub open spec fn net_items(b: &Board) -> Seq<(Seq<char>, Layout)> {
    Seq::new(b.nets@.len(), |i: int| line(1, net_layout(b.nets@[i].id.0, b.nets@[i].name@)))
}

pub open spec fn track_items(b: &Board) -> Seq<(Seq<char>, Layout)> {
    Seq::new(b.tracks@.len(), |i: int| line(1, track_layout(b.tracks@[i], (i + 1) as nat)))
}

pub open spec fn via_items(b: &Board) -> Seq<(Seq<char>, Layout)> {
    Seq::new(b.vias@.len(), |i: int| line(1, via_layout(b.vias@[i], (b.tracks@.len() + i + 1) as nat)))
}

pub open spec fn pad_items(b: &Board) -> Seq<(Seq<char>, Layout)> {
    Seq::new(
        b.pads@.len(),
        |i: int| line(1, pad_layout(b, b.pads@[i], (b.tracks@.len() + b.vias@.len() + 2 * i + 1) as nat)),
    )
}

#[verifier::opaque]
pub open spec fn pcb_items(b: &Board) -> Seq<(Seq<char>, Layout)> {
    seq![tag_item("kicad_pcb"@)] + header_items() + net_items(b) + track_items(b) + via_items(b) + pad_items(b)
}

/// The layout `pcb_text` writes for board `b`.
pub open spec fn pcb_layout(b: &Board) -> Layout {
    Layout::List(pcb_items(b), indent(0))
}

pub(crate) proof fn lemma_pcb_len(b: &Board)
    ensures
        pcb_items(b).len() == 9 + b.nets@.len() + b.tracks@.len() + b.vias@.len() + b.pads@.len(),
{
    reveal(pcb_items);
}

pub(crate) proof fn lemma_pcb_item(b: &Board, i: int)
    requires
        0 <= i < pcb_items(b).len(),
    ensures
        pcb_items(b).len() == 9 + b.nets@.len() + b.tracks@.len() + b.vias@.len() + b.pads@.len(),
        ({
            let nn = b.nets@.len() as int;
            let nt = b.tracks@.len() as int;
            let nv = b.vias@.len() as int;
            let x = pcb_items(b)[i];
            &&& i < 9 ==> x == (seq![tag_item("kicad_pcb"@)] + header_items())[i]
            &&& 9 <= i < 9 + nn ==> x == net_items(b)[i - 9]
            &&& 9 + nn <= i < 9 + nn + nt ==> x == track_items(b)[i - 9 - nn]
            &&& 9 + nn + nt <= i < 9 + nn + nt + nv ==> x == via_items(b)[i - 9 - nn - nt]
            &&& 9 + nn + nt + nv <= i ==> x == pad_items(b)[i - 9 - nn - nt - nv]
        }),
{
    let a0 = seq![tag_item("kicad_pcb"@)] + header_items();
    let a1 = a0 + net_items(b);
    let a2 = a1 + track_items(b);
    let a3 = a2 + via_items(b);
    reveal(pcb_items);
    assert(a0.len() == 9);
    assert(pcb_items(b) == a3 + pad_items(b));
}

proof fn lemma_root_header(b: &Board)
    ensures
        seq!['('] + itext(pcb_items(b), 9, 4) == pcb_header(),
{
    let items = pcb_items(b);
    let p = seq!['('];
    lemma_pcb_len(b);
    lemma_pcb_item(b, 0);
    lemma_pcb_item(b, 1);
    lemma_pcb_item(b, 2);
    lemma_pcb_item(b, 3);
    lemma_pcb_item(b, 4);
    lemma_pcb_item(b, 5);
    lemma_pcb_item(b, 6);
    lemma_pcb_item(b, 7);
    lemma_pcb_item(b, 8);
    lemma_first(items, "kicad_pcb"@, 3);
    lemma_pair_entry(1, "version"@, Layout::Bare("20241229"@), 2);
    lemma_pair_entry(1, "generator"@, Layout::Quoted("tessera"@), 2);
    lemma_pair_entry(1, "generator_version"@, Layout::Quoted("0.1"@), 2);
    lemma_settings_text(1);
    lemma_pair_entry(1, "paper"@, Layout::Quoted("A4"@), 2);
    lemma_triple_entry(1, "net"@, Layout::Bare(spec_decimal(0)), Layout::Quoted(Seq::empty()), 2);
    lemma_step(items, 2, 3, p);
    lemma_step(items, 3, 3, p);
    lemma_step(items, 4, 3, p);
    lemma_step(items, 5, 3, p);
    lemma_step(items, 6, 3, p);
    lemma_step(items, 7, 3, p);
    lemma_step(items, 8, 3, p);
    lemma_step(items, 9, 3, p);
}

proof fn lemma_root_nets(b: &Board, j: int)
    requires
        0 <= j <= b.nets@.len(),
    ensures
        seq!['('] + itext(pcb_items(b), 9 + j, 4) == pcb_header() + nets_text(b, j),
    decreases j,
{
    lemma_pcb_len(b);
    if j == 0 {
        lemma_root_header(b);
        lemma_add_empty(pcb_header());
    } else {
        let items = pcb_items(b);
        let n = b.nets@[j - 1];
        lemma_root_nets(b, j - 1);
        lemma_step(items, 9 + j, 3, seq!['(']);
        lemma_pcb_item(b, 9 + j - 1);
        lemma_triple_entry(1, "net"@, Layout::Bare(spec_decimal(n.id.0 as nat)), Layout::Quoted(n.name@), 2);
        vstd::seq_lib::lemma_concat_associative(pcb_header(), nets_text(b, j - 1), net_text(n.id.0, n.name@));
    }
}

proof fn lemma_root_tracks(b: &Board, j: int)
    requires
        0 <= j <= b.tracks@.len(),
    ensures
        seq!['('] + itext(pcb_items(b), 9 + b.nets@.len() + j, 4) == pcb_header() + nets_text(b, b.nets@.len() as int)
            + tracks_text(b, j, 0),
    decreases j,
{
    lemma_pcb_len(b);
    let pre = pcb_header() + nets_text(b, b.nets@.len() as int);
    if j == 0 {
        lemma_root_nets(b, b.nets@.len() as int);
        lemma_add_empty(pre);
    } else {
        let items = pcb_items(b);
        let t = b.tracks@[j - 1];
        lemma_root_tracks(b, j - 1);
        lemma_step(items, 9 + b.nets@.len() + j, 3, seq!['(']);
        lemma_pcb_item(b, 9 + b.nets@.len() + j - 1);
        lemma_track_text(t, j as nat, 1);
        vstd::seq_lib::lemma_concat_associative(pre, tracks_text(b, j - 1, 0), track_text(t, j as nat));
    }
}

#[verifier::rlimit(60)]
proof fn lemma_root_vias(b: &Board, j: int)
    requires
        0 <= j <= b.vias@.len(),
    ensures
        seq!['('] + itext(pcb_items(b), 9 + b.nets@.len() + b.tracks@.len() + j, 4) == pcb_header() + nets_text(
            b,
            b.nets@.len() as int,
        ) + tracks_text(b, b.tracks@.len() as int, 0) + vias_text(b, j, b.tracks@.len() as nat),
    decreases j,
{
    lemma_pcb_len(b);
    let nt = b.tracks@.len() as nat;
    let pre = pcb_header() + nets_text(b, b.nets@.len() as int) + tracks_text(b, nt as int, 0);
    if j == 0 {
        lemma_root_tracks(b, nt as int);
        lemma_add_empty(pre);
    } else {
        let items = pcb_items(b);
        let v = b.vias@[j - 1];
        lemma_root_vias(b, j - 1);
        lemma_step(items, 9 + b.nets@.len() + nt + j, 3, seq!['(']);
        lemma_pcb_item(b, 9 + b.nets@.len() + nt + j - 1);
        lemma_via_text(v, (nt + j) as nat, 1);
        vstd::seq_lib::lemma_concat_associative(pre, vias_text(b, j - 1, nt), via_text(v, (nt + j) as nat));
    }
}

#[verifier::rlimit(60)]
proof fn lemma_root_pads(b: &Board, j: int)
    requires
        0 <= j <= b.pads@.len(),
    ensures
        seq!['('] + itext(pcb_items(b), 9 + b.nets@.len() + b.tracks@.len() + b.vias@.len() + j, 4) == pcb_header()
            + nets_text(b, b.nets@.len() as int) + tracks_text(b, b.tracks@.len() as int, 0) + vias_text(
            b,
            b.vias@.len() as int,
            b.tracks@.len() as nat,
        ) + pads_text(b, j, (b.tracks@.len() + b.vias@.len()) as nat),
    decreases j,
{
    lemma_pcb_len(b);
    let nt = b.tracks@.len() as nat;
    let nv = b.vias@.len() as nat;
    let pre = pcb_header() + nets_text(b, b.nets@.len() as int) + tracks_text(b, nt as int, 0) + vias_text(
        b,
        nv as int,
        nt,
    );
    if j == 0 {
        lemma_root_vias(b, nv as int);
        lemma_add_empty(pre);
    } else {
        let items = pcb_items(b);
        let pd = b.pads@[j - 1];
        let u = (nt + nv + 2 * j - 1) as nat;
        lemma_root_pads(b, j - 1);
        lemma_step(items, 9 + b.nets@.len() + nt + nv + j, 3, seq!['(']);
        lemma_pcb_item(b, 9 + b.nets@.len() + nt + nv + j - 1);
        lemma_pad_text(b, pd, u, 0);
        vstd::seq_lib::lemma_concat_associative(pre, pads_text(b, j - 1, nt + nv), pad_text(b, pd, u));
    }
}

/// The fixture's board text is the text of its layout.
#[verifier::rlimit(60)]
proof fn lemma_pcb_text(b: &Board)
    ensures
        ltext(pcb_layout(b), 4) == pcb_text(b),
{
    lemma_pcb_len(b);
    let items = pcb_items(b);
    let k = items.len() as int;
    lemma_root_pads(b, b.pads@.len() as int);
    let body = itext(items, k, 4);
    lemma_wrap(body, indent(0));
}


/// Item `j` of a list nested `n` deep reads back: whitespace before it,
/// some before every item but the tag, and a well-formed layout.
pub open spec fn item_ok(items: Seq<(Seq<char>, Layout)>, j: int, n: nat) -> bool {
    &&& all_ws(items[j].0)
    &&& (j > 0 ==> items[j].0.len() > 0)
    &&& lwf(items[j].1, (n - 1) as nat)
}

proof fn lemma_iwf_all(items: Seq<(Seq<char>, Layout)>, k: int, n: nat)
    requires
        n > 0,
        0 <= k <= items.len(),
        forall|j: int| 0 <= j < k ==> #[trigger] item_ok(items, j, n),
    ensures
        iwf(items, k, n),
    decreases k,
{
    if k > 0 {
        lemma_iwf_all(items, k - 1, n);
        assert(item_ok(items, k - 1, n));
    }
}

proof fn lemma_indent_ws(k: nat)
    ensures
        all_ws(indent(k)),
        indent(k).len() > 0,
{
    assert forall|i: int| 0 <= i < indent(k).len() implies char_is_whitespace(#[trigger] indent(k)[i]) by {
        if i > 0 {
            assert(indent(k)[i] == '\t');
        }
    }
}

proof fn lemma_space_ws()
    ensures
        all_ws(seq![' ']),
        all_ws(Seq::<char>::empty()),
{
    assert forall|i: int| 0 <= i < seq![' '].len() implies char_is_whitespace(#[trigger] seq![' '][i]) by {
        assert(seq![' '][i] == ' ');
    }
}

proof fn lemma_pair_wf(tag: Seq<char>, d: Layout, m: nat)
    requires
        bare_ok(tag),
        lwf(d, m),
    ensures
        lwf(pair(tag, d), m + 1),
{
    let items = seq![(Seq::<char>::empty(), Layout::Bare(tag)), (seq![' '], d)];
    lemma_space_ws();
    assert(item_ok(items, 0, m + 1));
    assert(item_ok(items, 1, m + 1));
    lemma_iwf_all(items, 2, m + 1);
}

proof fn lemma_triple_wf(tag: Seq<char>, a: Layout, b: Layout, m: nat)
    requires
        bare_ok(tag),
        lwf(a, m),
        lwf(b, m),
    ensures
        lwf(triple(tag, a, b), m + 1),
{
    let items = seq![(Seq::<char>::empty(), Layout::Bare(tag)), (seq![' '], a), (seq![' '], b)];
    lemma_space_ws();
    assert(item_ok(items, 0, m + 1));
    assert(item_ok(items, 1, m + 1));
    assert(item_ok(items, 2, m + 1));
    lemma_iwf_all(items, 3, m + 1);
}

/// Characters that can stand in a bare atom and inside quotes alike.
pub open spec fn plain(c: char) -> bool {
    ||| ('a' <= c && c <= 'z')
    ||| ('A' <= c && c <= 'Z')
    ||| ('0' <= c && c <= '9')
    ||| c == '_' || c == '.' || c == '-' || c == ':'
}

pub open spec fn all_plain(a: Seq<char>) -> bool {
    forall|i: int| 0 <= i < a.len() ==> plain(#[trigger] a[i])
}

proof fn lemma_plain_ok(a: Seq<char>)
    requires
        all_plain(a),
    ensures
        quote_ok(a),
        a.len() > 0 ==> bare_ok(a),
{
    assert forall|i: int| 0 <= i < a.len() implies !delim(#[trigger] a[i]) && a[i] != '"' && a[i] != '\\' by {
        assert(plain(a[i]));
    }
    if a.len() > 0 {
        assert(plain(a[0]));
    }
}

proof fn lemma_digits_plain(n: nat, b: nat)
    requires
        2 <= b <= 16,
    ensures
        all_plain(spec_digits(n, b)),
        spec_digits(n, b).len() > 0,
    decreases n,
{
    if n < b {
        assert(spec_digits(n, b) =~= seq![digit_char(n as int)]);
    } else {
        assert(n / b < n) by (nonlinear_arith)
            requires
                b >= 2,
                n >= b,
        ;
        lemma_digits_plain(n / b, b);
        let t = spec_digits(n, b);
        assert(t == spec_digits(n / b, b).push(digit_char((n % b) as int)));
        assert forall|i: int| 0 <= i < t.len() implies plain(#[trigger] t[i]) by {
            if i < t.len() - 1 {
                assert(t[i] == spec_digits(n / b, b)[i]);
            }
        }
    }
}

proof fn lemma_mm6_plain(v: int)
    ensures
        all_plain(spec_mm6(v)),
        spec_mm6(v).len() > 0,
{
    let a = abs_int(v);
    let ip = spec_decimal((a / 1_000_000) as nat);
    let dr = spec_decimal((a % 1_000_000) as nat);
    lemma_digits_plain((a / 1_000_000) as nat, 10);
    lemma_digits_plain((a % 1_000_000) as nat, 10);
    let f = zero_pad(dr, 6);
    assert(all_plain(f)) by {
        if dr.len() < 6 {
            let zs = Seq::new((6 - dr.len()) as nat, |i: int| '0');
            assert forall|i: int| 0 <= i < f.len() implies plain(#[trigger] f[i]) by {
                if i >= zs.len() {
                    assert(f[i] == dr[i - zs.len()]);
                }
            }
        }
    }
    let sign = if v < 0 {
        seq!['-']
    } else {
        Seq::<char>::empty()
    };
    let t = spec_mm6(v);
    assert(t == sign + ip + seq!['.'] + f);
    assert forall|i: int| 0 <= i < t.len() implies plain(#[trigger] t[i]) by {
        if i < sign.len() {
            assert(t[i] == '-');
        } else if i < sign.len() + ip.len() {
            assert(t[i] == ip[i - sign.len()]);
        } else if i == sign.len() + ip.len() {
            assert(t[i] == '.');
        } else {
            assert(t[i] == f[i - sign.len() - ip.len() - 1]);
        }
    }
}

proof fn lemma_uuid_plain(u: nat)
    ensures
        all_plain(uuid_text(u)),
{
    reveal_strlit("00000000-0000-0000-0000-");
    let pre = "00000000-0000-0000-0000-"@;
    let dg = spec_digits(u, 16);
    lemma_digits_plain(u, 16);
    let f = zero_pad(dg, 12);
    assert(all_plain(f)) by {
        if dg.len() < 12 {
            let zs = Seq::new((12 - dg.len()) as nat, |i: int| '0');
            assert forall|i: int| 0 <= i < f.len() implies plain(#[trigger] f[i]) by {
                if i >= zs.len() {
                    assert(f[i] == dg[i - zs.len()]);
                }
            }
        }
    }
    assert(all_plain(pre));
    let t = uuid_text(u);
    assert forall|i: int| 0 <= i < t.len() implies plain(#[trigger] t[i]) by {
        if i < pre.len() {
            assert(t[i] == pre[i]);
        } else {
            assert(t[i] == f[i - pre.len()]);
        }
    }
}


proof fn lemma_lit(a: Seq<char>)
    requires
        all_plain(a),
    ensures
        quote_ok(a),
        a.len() > 0 ==> bare_ok(a),
{
    lemma_plain_ok(a);
}

pub(crate) proof fn lemma_entry_tags()
    ensures
        bare_ok("segment"@),
        bare_ok("start"@),
        bare_ok("end"@),
        bare_ok("width"@),
        bare_ok("layer"@),
        bare_ok("net"@),
        bare_ok("locked"@),
        bare_ok("yes"@),
        bare_ok("uuid"@),
        bare_ok("via"@),
        bare_ok("at"@),
        bare_ok("size"@),
        bare_ok("drill"@),
        bare_ok("layers"@),
        quote_ok("F.Cu"@),
        quote_ok("B.Cu"@),
{
    reveal_strlit("segment");
    reveal_strlit("start");
    reveal_strlit("end");
    reveal_strlit("width");
    reveal_strlit("layer");
    reveal_strlit("net");
    reveal_strlit("locked");
    reveal_strlit("yes");
    reveal_strlit("uuid");
    reveal_strlit("via");
    reveal_strlit("at");
    reveal_strlit("size");
    reveal_strlit("drill");
    reveal_strlit("layers");
    reveal_strlit("F.Cu");
    reveal_strlit("B.Cu");
    lemma_lit("segment"@);
    lemma_lit("start"@);
    lemma_lit("end"@);
    lemma_lit("width"@);
    lemma_lit("layer"@);
    lemma_lit("net"@);
    lemma_lit("locked"@);
    lemma_lit("yes"@);
    lemma_lit("uuid"@);
    lemma_lit("via"@);
    lemma_lit("at"@);
    lemma_lit("size"@);
    lemma_lit("drill"@);
    lemma_lit("layers"@);
    lemma_lit("F.Cu"@);
    lemma_lit("B.Cu"@);
}

proof fn lemma_value_ok(v: int, n: nat, u: nat)
    ensures
        bare_ok(spec_mm6(v)),
        bare_ok(spec_decimal(n)),
        quote_ok(uuid_text(u)),
{
    lemma_mm6_plain(v);
    lemma_plain_ok(spec_mm6(v));
    lemma_digits_plain(n, 10);
    lemma_plain_ok(spec_decimal(n));
    lemma_uuid_plain(u);
    lemma_plain_ok(uuid_text(u));
}

proof fn lemma_track_wf(t: Track, u: nat, m: nat)
    ensures
        lwf(track_layout(t, u), m + 2),
{
    let items = match track_layout(t, u) {
        Layout::List(items, _) => items,
        _ => Seq::empty(),
    };
    lemma_entry_tags();
    lemma_indent_ws(1);
    lemma_indent_ws(2);
    lemma_space_ws();
    lemma_value_ok(t.segment.a.x as int, t.net.0 as nat, u);
    lemma_value_ok(t.segment.a.y as int, 0, 0);
    lemma_value_ok(t.segment.b.x as int, 0, 0);
    lemma_value_ok(t.segment.b.y as int, 0, 0);
    lemma_value_ok(t.width_nm as int, 0, 0);
    lemma_triple_wf("start"@, Layout::Bare(spec_mm6(t.segment.a.x as int)), Layout::Bare(spec_mm6(t.segment.a.y as int)), m);
    lemma_triple_wf("end"@, Layout::Bare(spec_mm6(t.segment.b.x as int)), Layout::Bare(spec_mm6(t.segment.b.y as int)), m);
    lemma_pair_wf("width"@, Layout::Bare(spec_mm6(t.width_nm as int)), m);
    lemma_pair_wf("layer"@, Layout::Quoted(layer_name(t.layer)), m);
    lemma_pair_wf("net"@, Layout::Bare(spec_decimal(t.net.0 as nat)), m);
    lemma_pair_wf("locked"@, Layout::Bare("yes"@), m);
    lemma_pair_wf("uuid"@, Layout::Quoted(uuid_text(u)), m);
    assert forall|j: int| 0 <= j < items.len() implies #[trigger] item_ok(items, j, m + 2) by {
        if j == 0 {
        } else if j == 1 {
        } else if j == 2 {
        } else if j == 3 {
        } else if j == 4 {
        } else if j == 5 {
        } else if j == 6 {
        } else {
        }
    }
    lemma_iwf_all(items, items.len() as int, m + 2);
}

/// Every net name of `b` can be written between quotes without escapes.
pub open spec fn names_quotable(b: &Board) -> bool {
    forall|i: int| 0 <= i < b.nets@.len() ==> quote_ok(#[trigger] b.nets@[i].name@)
}

proof fn lemma_via_wf(v: Via, u: nat, m: nat)
    ensures
        lwf(via_layout(v, u), m + 2),
{
    let items = match via_layout(v, u) {
        Layout::List(items, _) => items,
        _ => Seq::empty(),
    };
    lemma_entry_tags();
    lemma_indent_ws(1);
    lemma_indent_ws(2);
    lemma_space_ws();
    lemma_value_ok(v.position.x as int, v.net.0 as nat, u);
    lemma_value_ok(v.position.y as int, 0, 0);
    lemma_value_ok(v.diameter_nm as int, 0, 0);
    lemma_value_ok(v.drill_nm as int, 0, 0);
    lemma_triple_wf("at"@, Layout::Bare(spec_mm6(v.position.x as int)), Layout::Bare(spec_mm6(v.position.y as int)), m);
    lemma_pair_wf("size"@, Layout::Bare(spec_mm6(v.diameter_nm as int)), m);
    lemma_pair_wf("drill"@, Layout::Bare(spec_mm6(v.drill_nm as int)), m);
    lemma_triple_wf("layers"@, Layout::Quoted("F.Cu"@), Layout::Quoted("B.Cu"@), m);
    lemma_pair_wf("net"@, Layout::Bare(spec_decimal(v.net.0 as nat)), m);
    lemma_pair_wf("locked"@, Layout::Bare("yes"@), m);
    lemma_pair_wf("uuid"@, Layout::Quoted(uuid_text(u)), m);
    assert forall|j: int| 0 <= j < items.len() implies #[trigger] item_ok(items, j, m + 2) by {
        if j == 0 {
        } else if j == 1 {
        } else if j == 2 {
        } else if j == 3 {
        } else if j == 4 {
        } else if j == 5 {
        } else if j == 6 {
        } else {
        }
    }
    lemma_iwf_all(items, items.len() as int, m + 2);
}

proof fn lemma_pad_tags()
    ensures
        bare_ok("footprint"@),
        bare_ok("attr"@),
        bare_ok("smd"@),
        bare_ok("pad"@),
        bare_ok("circle"@),
        bare_ok("0"@),
        quote_ok("1"@),
        quote_ok("tessera:single_pad"@),
{
    reveal_strlit("footprint");
    reveal_strlit("attr");
    reveal_strlit("smd");
    reveal_strlit("pad");
    reveal_strlit("circle");
    reveal_strlit("0");
    reveal_strlit("1");
    reveal_strlit("tessera:single_pad");
    lemma_lit("footprint"@);
    lemma_lit("attr"@);
    lemma_lit("smd"@);
    lemma_lit("pad"@);
    lemma_lit("circle"@);
    lemma_lit("0"@);
    lemma_lit("1"@);
    lemma_lit("tessera:single_pad"@);
}

proof fn lemma_pad_names_ok(b: &Board, p: Pad)
    requires
        names_quotable(b),
    ensures
        quote_ok(pad_net_name(b, p)),
        quote_ok(pad_layer_name(p)),
{
    lemma_entry_tags();
    match net_index(b.nets@, p.net) {
        Some(i) => {
            assert(is_first_net(b.nets@, p.net, i));
        },
        None => {},
    }
}

proof fn lemma_pad_entry_wf(b: &Board, p: Pad, u: nat, m: nat)
    requires
        names_quotable(b),
    ensures
        lwf(pad_entry_layout(b, p, u), m + 2),
{
    let items = match pad_entry_layout(b, p, u) {
        Layout::List(items, _) => items,
        _ => Seq::empty(),
    };
    let d = spec_mm6(p.circle().radius_nm * 2);
    lemma_entry_tags();
    lemma_pad_tags();
    lemma_pad_names_ok(b, p);
    lemma_indent_ws(2);
    lemma_indent_ws(3);
    lemma_space_ws();
    lemma_value_ok(p.circle().radius_nm * 2, p.net.0 as nat, u);
    lemma_triple_wf("at"@, Layout::Bare("0"@), Layout::Bare("0"@), m);
    lemma_triple_wf("size"@, Layout::Bare(d), Layout::Bare(d), m);
    lemma_pair_wf("layers"@, Layout::Quoted(pad_layer_name(p)), m);
    lemma_triple_wf("net"@, Layout::Bare(spec_decimal(p.net.0 as nat)), Layout::Quoted(pad_net_name(b, p)), m);
    lemma_pair_wf("uuid"@, Layout::Quoted(uuid_text(u)), m);
    assert forall|j: int| 0 <= j < items.len() implies #[trigger] item_ok(items, j, m + 2) by {
        if j == 0 {
        } else if j == 1 {
        } else if j == 2 {
        } else if j == 3 {
        } else if j == 4 {
        } else if j == 5 {
        } else if j == 6 {
        } else if j == 7 {
        } else {
        }
    }
    lemma_iwf_all(items, items.len() as int, m + 2);
}

proof fn lemma_pad_wf(b: &Board, p: Pad, u: nat, m: nat)
    requires
        names_quotable(b),
    ensures
        lwf(pad_layout(b, p, u), m + 3),
{
    let items = match pad_layout(b, p, u) {
        Layout::List(items, _) => items,
        _ => Seq::empty(),
    };
    let c = p.circle().center;
    lemma_entry_tags();
    lemma_pad_tags();
    lemma_pad_names_ok(b, p);
    lemma_indent_ws(1);
    lemma_indent_ws(2);
    lemma_space_ws();
    lemma_value_ok(c.x as int, 0, u);
    lemma_value_ok(c.y as int, 0, 0);
    lemma_pair_wf("layer"@, Layout::Quoted(pad_layer_name(p)), m + 1);
    lemma_pair_wf("uuid"@, Layout::Quoted(uuid_text(u)), m + 1);
    lemma_triple_wf("at"@, Layout::Bare(spec_mm6(c.x as int)), Layout::Bare(spec_mm6(c.y as int)), m + 1);
    lemma_pair_wf("locked"@, Layout::Bare("yes"@), m + 1);
    lemma_pair_wf("attr"@, Layout::Bare("smd"@), m + 1);
    lemma_pad_entry_wf(b, p, u + 1, m);
    assert forall|j: int| 0 <= j < items.len() implies #[trigger] item_ok(items, j, m + 3) by {
        if j == 0 {
        } else if j == 1 {
        } else if j == 2 {
        } else if j == 3 {
        } else if j == 4 {
        } else if j == 5 {
        } else if j == 6 {
        } else {
        }
    }
    lemma_iwf_all(items, items.len() as int, m + 3);
}

proof fn lemma_header_tags()
    ensures
        bare_ok("kicad_pcb"@),
        bare_ok("version"@),
        bare_ok("generator"@),
        bare_ok("generator_version"@),
        bare_ok("general"@),
        bare_ok("thickness"@),
        bare_ok("paper"@),
        bare_ok("setup"@),
        bare_ok("pad_to_mask_clearance"@),
        bare_ok("2"@),
        bare_ok("signal"@),
        bare_ok("20241229"@),
        bare_ok("1.6"@),
        quote_ok("tessera"@),
        quote_ok("0.1"@),
        quote_ok("A4"@),
        quote_ok(Seq::<char>::empty()),
{
    reveal_strlit("kicad_pcb");
    reveal_strlit("version");
    reveal_strlit("generator");
    reveal_strlit("generator_version");
    reveal_strlit("general");
    reveal_strlit("thickness");
    reveal_strlit("paper");
    reveal_strlit("setup");
    reveal_strlit("pad_to_mask_clearance");
    reveal_strlit("2");
    reveal_strlit("signal");
    reveal_strlit("20241229");
    reveal_strlit("1.6");
    reveal_strlit("tessera");
    reveal_strlit("0.1");
    reveal_strlit("A4");
    lemma_lit("kicad_pcb"@);
    lemma_lit("version"@);
    lemma_lit("generator"@);
    lemma_lit("generator_version"@);
    lemma_lit("general"@);
    lemma_lit("thickness"@);
    lemma_lit("paper"@);
    lemma_lit("setup"@);
    lemma_lit("pad_to_mask_clearance"@);
    lemma_lit("2"@);
    lemma_lit("signal"@);
    lemma_lit("20241229"@);
    lemma_lit("1.6"@);
    lemma_lit("tessera"@);
    lemma_lit("0.1"@);
    lemma_lit("A4"@);
}

proof fn lemma_header_wf()
    ensures
        forall|j: int| 0 <= j < 9 ==> #[trigger] item_ok(seq![tag_item("kicad_pcb"@)] + header_items(), j, 4),
{
    let items = seq![tag_item("kicad_pcb"@)] + header_items();
    lemma_header_tags();
    lemma_entry_tags();
    lemma_pad_tags();
    lemma_indent_ws(1);
    lemma_indent_ws(2);
    lemma_space_ws();
    lemma_value_ok(0, 0, 0);
    lemma_pair_wf("version"@, Layout::Bare("20241229"@), 2);
    lemma_pair_wf("generator"@, Layout::Quoted("tessera"@), 2);
    lemma_pair_wf("generator_version"@, Layout::Quoted("0.1"@), 2);
    lemma_pair_wf("paper"@, Layout::Quoted("A4"@), 2);
    lemma_triple_wf("net"@, Layout::Bare(spec_decimal(0)), Layout::Quoted(Seq::empty()), 2);
    let g = match general_layout() {
        Layout::List(items, _) => items,
        _ => Seq::empty(),
    };
    lemma_pair_wf("thickness"@, Layout::Bare("1.6"@), 1);
    assert(item_ok(g, 0, 3));
    assert(item_ok(g, 1, 3));
    lemma_iwf_all(g, 2, 3);
    let l = match layers_layout() {
        Layout::List(items, _) => items,
        _ => Seq::empty(),
    };
    lemma_triple_wf("0"@, Layout::Quoted("F.Cu"@), Layout::Bare("signal"@), 1);
    lemma_triple_wf("2"@, Layout::Quoted("B.Cu"@), Layout::Bare("signal"@), 1);
    assert(item_ok(l, 0, 3));
    assert(item_ok(l, 1, 3));
    assert(item_ok(l, 2, 3));
    lemma_iwf_all(l, 3, 3);
    let st = match setup_layout() {
        Layout::List(items, _) => items,
        _ => Seq::empty(),
    };
    lemma_pair_wf("pad_to_mask_clearance"@, Layout::Bare("0"@), 1);
    assert(item_ok(st, 0, 3));
    assert(item_ok(st, 1, 3));
    lemma_iwf_all(st, 2, 3);
    assert forall|j: int| 0 <= j < 9 implies #[trigger] item_ok(items, j, 4) by {
        if j == 0 {
        } else if j == 1 {
        } else if j == 2 {
        } else if j == 3 {
        } else if j == 4 {
        } else if j == 5 {
        } else if j == 6 {
        } else if j == 7 {
        } else {
        }
    }
}

proof fn lemma_pcb_wf(b: &Board)
    requires
        names_quotable(b),
    ensures
        lwf(pcb_layout(b), 4),
{
    lemma_pcb_len(b);
    let items = pcb_items(b);
    let nn = b.nets@.len() as int;
    let nt = b.tracks@.len() as int;
    let nv = b.vias@.len() as int;
    lemma_header_wf();
    lemma_indent_ws(0);
    lemma_indent_ws(1);
    assert forall|j: int| 0 <= j < items.len() implies #[trigger] item_ok(items, j, 4) by {
        lemma_pcb_item(b, j);
        if j < 9 {
            assert(item_ok(seq![tag_item("kicad_pcb"@)] + header_items(), j, 4));
        } else if j < 9 + nn {
            let n = b.nets@[j - 9];
            lemma_entry_tags();
            lemma_value_ok(0, n.id.0 as nat, 0);
            assert(quote_ok(b.nets@[j - 9].name@));
            lemma_triple_wf("net"@, Layout::Bare(spec_decimal(n.id.0 as nat)), Layout::Quoted(n.name@), 2);
        } else if j < 9 + nn + nt {
            lemma_track_wf(b.tracks@[j - 9 - nn], (j - 9 - nn + 1) as nat, 1);
        } else if j < 9 + nn + nt + nv {
            lemma_via_wf(b.vias@[j - 9 - nn - nt], (nt + j - 9 - nn - nt + 1) as nat, 1);
        } else {
            let i = j - 9 - nn - nt - nv;
            lemma_pad_wf(b, b.pads@[i], (nt + nv + 2 * i + 1) as nat, 0);
        }
    }
    lemma_iwf_all(items, items.len() as int, 4);
}

/// The fixture's board text reads back as the expression its layout
/// denotes, provided every net name can be quoted without escapes.
pub proof fn lemma_fixture_parses(b: &Board)
    requires
        names_quotable(b),
    ensures
        spec_parse(pcb_text(b)) == Ok::<SexprView, Seq<char>>(lview(pcb_layout(b), 4)),
{
    let d = pcb_layout(b);
    lemma_pcb_text(b);
    lemma_pcb_wf(b);
    let s = ltext(d, 4);
    assert(s.subrange(0, s.len() as int) =~= s);
    lemma_layout_parses(d, 4, s, 0);
    assert(ws_end(s, s.len() as int) == s.len());
}

} // verus!
