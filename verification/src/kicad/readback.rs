//! Reading a fixture back: from the expression the fixture's board text
//! reads back as, the board extraction recovers the board's nets, tracks,
//! vias and pads.

use vstd::prelude::*;

use crate::geom::point::Point;
use crate::kicad::fixture::{indent, layer_name, pad_layer_name, pad_net_name, pcb_text, pro_text, two, uuid_text};
use crate::kicad::fixture_layout::{
    layers_layout, lemma_fixture_parses, lemma_pcb_item, lemma_pcb_len, line, names_quotable, pad_entry_layout, pad_layout,
    pair, pcb_items, pcb_layout, tag_item, track_layout, triple, via_layout,
};
use crate::kicad::parser::{
    class_models, classes_writable, json_lists_classes, lemma_project_reads_back, project_classes, project_warnings,
    child_layer, child_mm, child_net, child_xy, declares_layer, fp_pads, fp_reference, has_copper, index_id,
    is_reference_property, layer_ids_upto, listed_layers, lists_atom, net_entry, net_names, next_pad_index, pads_scan,
    reference_from, spec_locked, spec_pad, spec_track, spec_via, tracks_scan, vias_scan, PadModel,
};
use crate::kicad::sexpr::{
    is_first_tagged, lemma_first_tagged_unique, lemma_iview_len, lview, spec_parse, v_as_atom, v_atom, v_children, v_find,
    v_find_all, v_head, Layout, SexprView,
};
use crate::model::board::{dim_ok, Board};
use crate::model::items::{LayerId, NetId, Pad, PadId, Track, TrackId, Via, ViaId};
use crate::text::{
    digits_value, frac_millionths, index_of, is_digit, lemma_decimal, lemma_mm6_parses_back, spec_decimal, spec_mm6,
    spec_parse_mm_nm, spec_parse_plain_mm, spec_parse_u32, exp_index,
};

verus! {

proof fn lemma_list_children(items: Seq<(Seq<char>, Layout)>, tw: Seq<char>, n: nat)
    requires
        n > 0,
    ensures
        v_children(lview(Layout::List(items, tw), n)).len() == items.len(),
        forall|j: int|
            0 <= j < items.len() ==> #[trigger] v_children(lview(Layout::List(items, tw), n))[j] == lview(
                items[j].1,
                (n - 1) as nat,
            ),
{
    lemma_iview_len(items, items.len() as int, n);
}

proof fn lemma_pair_view(tag: Seq<char>, d: Layout, m: nat)
    ensures
        v_head(lview(pair(tag, d), m + 1)) == Some(tag),
        v_children(lview(pair(tag, d), m + 1)).len() == 2,
        v_atom(lview(pair(tag, d), m + 1), 1) == v_as_atom(lview(d, m)),
{
    let items = seq![(Seq::<char>::empty(), Layout::Bare(tag)), (seq![' '], d)];
    lemma_list_children(items, Seq::empty(), m + 1);
}

proof fn lemma_triple_view(tag: Seq<char>, a: Layout, b: Layout, m: nat)
    ensures
        v_head(lview(triple(tag, a, b), m + 1)) == Some(tag),
        v_children(lview(triple(tag, a, b), m + 1)).len() == 3,
        v_atom(lview(triple(tag, a, b), m + 1), 1) == v_as_atom(lview(a, m)),
        v_atom(lview(triple(tag, a, b), m + 1), 2) == v_as_atom(lview(b, m)),
{
    let items = seq![(Seq::<char>::empty(), Layout::Bare(tag)), (seq![' '], a), (seq![' '], b)];
    lemma_list_children(items, Seq::empty(), m + 1);
}

proof fn lemma_ne_len(a: Seq<char>, b: Seq<char>)
    requires
        a.len() != b.len(),
    ensures
        a != b,
{
}

proof fn lemma_ne_at(a: Seq<char>, b: Seq<char>, i: int)
    requires
        0 <= i < a.len(),
        i < b.len(),
        a[i] != b[i],
    ensures
        a != b,
{
}

proof fn lemma_tags_distinct()
    ensures
        "start"@ != "end"@,
        "start"@ != "width"@,
        "end"@ != "width"@,
        "start"@ != "layer"@,
        "end"@ != "layer"@,
        "width"@ != "layer"@,
        "start"@ != "net"@,
        "end"@ != "net"@,
        "width"@ != "net"@,
        "layer"@ != "net"@,
        "start"@ != "locked"@,
        "end"@ != "locked"@,
        "width"@ != "locked"@,
        "layer"@ != "locked"@,
        "net"@ != "locked"@,
        "uuid"@ != "locked"@,
        "at"@ != "size"@,
        "at"@ != "drill"@,
        "size"@ != "drill"@,
        "at"@ != "layers"@,
        "size"@ != "layers"@,
        "drill"@ != "layers"@,
        "at"@ != "net"@,
        "size"@ != "net"@,
        "drill"@ != "net"@,
        "layers"@ != "net"@,
        "at"@ != "locked"@,
        "size"@ != "locked"@,
        "drill"@ != "locked"@,
        "layers"@ != "locked"@,
        "F.Cu"@ != "B.Cu"@,
{
    reveal_strlit("start");
    reveal_strlit("end");
    reveal_strlit("width");
    reveal_strlit("layer");
    reveal_strlit("net");
    reveal_strlit("locked");
    reveal_strlit("uuid");
    reveal_strlit("at");
    reveal_strlit("size");
    reveal_strlit("drill");
    reveal_strlit("layers");
    reveal_strlit("F.Cu");
    reveal_strlit("B.Cu");
    assert("start"@.len() == 5);
    assert("end"@.len() == 3);
    lemma_ne_len("start"@, "end"@);
    lemma_ne_len("end"@, "width"@);
    lemma_ne_len("end"@, "layer"@);
    lemma_ne_len("start"@, "net"@);
    lemma_ne_len("width"@, "net"@);
    lemma_ne_len("layer"@, "net"@);
    lemma_ne_len("start"@, "locked"@);
    lemma_ne_len("end"@, "locked"@);
    lemma_ne_len("width"@, "locked"@);
    lemma_ne_len("layer"@, "locked"@);
    lemma_ne_len("net"@, "locked"@);
    lemma_ne_len("uuid"@, "locked"@);
    lemma_ne_len("at"@, "size"@);
    lemma_ne_len("at"@, "drill"@);
    lemma_ne_len("size"@, "drill"@);
    lemma_ne_len("at"@, "layers"@);
    lemma_ne_len("size"@, "layers"@);
    lemma_ne_len("drill"@, "layers"@);
    lemma_ne_len("at"@, "net"@);
    lemma_ne_len("size"@, "net"@);
    lemma_ne_len("drill"@, "net"@);
    lemma_ne_len("layers"@, "net"@);
    lemma_ne_len("at"@, "locked"@);
    lemma_ne_len("size"@, "locked"@);
    lemma_ne_len("drill"@, "locked"@);
    lemma_ne_at("start"@, "width"@, 0);
    lemma_ne_at("start"@, "layer"@, 0);
    lemma_ne_at("width"@, "layer"@, 0);
    lemma_ne_at("end"@, "net"@, 0);
    lemma_ne_at("layers"@, "locked"@, 1);
    lemma_ne_at("F.Cu"@, "B.Cu"@, 0);
}

/// `n` in decimal reads back as `n`.
proof fn lemma_u32_parses_back(n: u32)
    ensures
        spec_parse_u32(spec_decimal(n as nat)) == Some(n),
{
    let s = spec_decimal(n as nat);
    lemma_decimal(n as nat);
    assert(is_digit(s[0]));
}

/// Track `t` read back as the `i`th track.
pub open spec fn renumbered_track(t: Track, i: int) -> Track {
    Track {
        id: TrackId(index_id(i)),
        segment: t.segment,
        width_nm: t.width_nm,
        layer: t.layer,
        net: t.net,
        locked: t.locked,
    }
}

proof fn lemma_track_reads(t: Track, u: nat, i: int)
    requires
        t.segment.in_range(),
        dim_ok(t.width_nm as int),
        t.layer.0 <= 1,
    ensures
        spec_track(lview(track_layout(t, u), 3), TrackId(index_id(i))) == Some(renumbered_track(t, i)),
{
    let items = match track_layout(t, u) {
        Layout::List(items, _) => items,
        _ => Seq::empty(),
    };
    let v = lview(track_layout(t, u), 3);
    let c = v_children(v);
    lemma_list_children(items, indent(1), 3);
    lemma_tags_distinct();
    let ax = Layout::Bare(spec_mm6(t.segment.a.x as int));
    let ay = Layout::Bare(spec_mm6(t.segment.a.y as int));
    let bx = Layout::Bare(spec_mm6(t.segment.b.x as int));
    let by = Layout::Bare(spec_mm6(t.segment.b.y as int));
    lemma_triple_view("start"@, ax, ay, 1);
    lemma_triple_view("end"@, bx, by, 1);
    lemma_pair_view("width"@, Layout::Bare(spec_mm6(t.width_nm as int)), 1);
    lemma_pair_view("layer"@, Layout::Quoted(layer_name(t.layer)), 1);
    lemma_pair_view("net"@, Layout::Bare(spec_decimal(t.net.0 as nat)), 1);
    lemma_pair_view("locked"@, Layout::Bare("yes"@), 1);
    lemma_pair_view("uuid"@, Layout::Quoted(uuid_text(u)), 1);
    assert(c[0] == SexprView::Atom("segment"@));
    assert(v_head(c[0]) == None::<Seq<char>>);
    lemma_first_tagged_unique(v, "start"@, 1);
    lemma_first_tagged_unique(v, "end"@, 2);
    lemma_first_tagged_unique(v, "width"@, 3);
    lemma_first_tagged_unique(v, "layer"@, 4);
    lemma_first_tagged_unique(v, "net"@, 5);
    lemma_mm6_parses_back(t.segment.a.x);
    lemma_mm6_parses_back(t.segment.a.y);
    lemma_mm6_parses_back(t.segment.b.x);
    lemma_mm6_parses_back(t.segment.b.y);
    lemma_mm6_parses_back(t.width_nm);
    lemma_u32_parses_back(t.net.0);
    assert(child_xy(v, "start"@) == Some(t.segment.a));
    assert(child_xy(v, "end"@) == Some(t.segment.b));
    assert(child_mm(v, "width"@) == Some(t.width_nm));
    assert(child_layer(v) == Some(t.layer));
    assert(child_net(v) == Some(t.net.0));
    if t.locked {
        lemma_first_tagged_unique(v, "locked"@, 6);
        reveal_strlit("yes");
        assert(spec_locked(v));
    } else {
        assert forall|k: int| !is_first_tagged(v, "locked"@, k) by {
            if 0 <= k < c.len() {
                assert(v_head(c[k]) != Some("locked"@));
            }
        }
        assert(!spec_locked(v));
    }
}


/// Via `v` read back as the `i`th via: a through via from `F.Cu` to
/// `B.Cu`.
pub open spec fn renumbered_via(v: Via, i: int) -> Via {
    Via {
        id: ViaId(index_id(i)),
        position: v.position,
        diameter_nm: v.diameter_nm,
        drill_nm: v.drill_nm,
        from_layer: LayerId(0),
        to_layer: LayerId(1),
        net: v.net,
        locked: v.locked,
    }
}

proof fn lemma_via_reads(v: Via, u: nat, i: int)
    requires
        v.position.in_range(),
        dim_ok(v.diameter_nm as int),
    ensures
        spec_via(lview(via_layout(v, u), 3), ViaId(index_id(i))) == Some(renumbered_via(v, i)),
{
    let items = match via_layout(v, u) {
        Layout::List(items, _) => items,
        _ => Seq::empty(),
    };
    let w = lview(via_layout(v, u), 3);
    let c = v_children(w);
    lemma_list_children(items, indent(1), 3);
    lemma_tags_distinct();
    let px = Layout::Bare(spec_mm6(v.position.x as int));
    let py = Layout::Bare(spec_mm6(v.position.y as int));
    lemma_triple_view("at"@, px, py, 1);
    lemma_pair_view("size"@, Layout::Bare(spec_mm6(v.diameter_nm as int)), 1);
    lemma_pair_view("drill"@, Layout::Bare(spec_mm6(v.drill_nm as int)), 1);
    lemma_triple_view("layers"@, Layout::Quoted("F.Cu"@), Layout::Quoted("B.Cu"@), 1);
    lemma_pair_view("net"@, Layout::Bare(spec_decimal(v.net.0 as nat)), 1);
    lemma_pair_view("locked"@, Layout::Bare("yes"@), 1);
    lemma_pair_view("uuid"@, Layout::Quoted(uuid_text(u)), 1);
    assert(c[0] == SexprView::Atom("via"@));
    assert(v_head(c[0]) == None::<Seq<char>>);
    lemma_first_tagged_unique(w, "at"@, 1);
    lemma_first_tagged_unique(w, "size"@, 2);
    lemma_first_tagged_unique(w, "drill"@, 3);
    lemma_first_tagged_unique(w, "layers"@, 4);
    lemma_first_tagged_unique(w, "net"@, 5);
    lemma_mm6_parses_back(v.position.x);
    lemma_mm6_parses_back(v.position.y);
    lemma_mm6_parses_back(v.diameter_nm);
    lemma_mm6_parses_back(v.drill_nm);
    lemma_u32_parses_back(v.net.0);
    assert(child_xy(w, "at"@) == Some(v.position));
    assert(child_mm(w, "size"@) == Some(v.diameter_nm));
    assert(child_mm(w, "drill"@) == Some(v.drill_nm));
    assert(child_net(w) == Some(v.net.0));
    let ls = c[4];
    assert(v_find(w, "layers"@) == Some(ls));
    assert(v_children(ls)[1] == lview(Layout::Quoted("F.Cu"@), 0)) by {
        lemma_list_children(
            seq![(Seq::<char>::empty(), Layout::Bare("layers"@)), (seq![' '], Layout::Quoted("F.Cu"@)), (seq![' '], Layout::Quoted("B.Cu"@))],
            Seq::empty(),
            1,
        );
    }
    assert(v_children(ls)[2] == lview(Layout::Quoted("B.Cu"@), 0)) by {
        lemma_list_children(
            seq![(Seq::<char>::empty(), Layout::Bare("layers"@)), (seq![' '], Layout::Quoted("F.Cu"@)), (seq![' '], Layout::Quoted("B.Cu"@))],
            Seq::empty(),
            1,
        );
    }
    assert(lists_atom(ls, "F.Cu"@)) by {
        assert(v_as_atom(v_children(ls)[1]) == Some("F.Cu"@));
    }
    assert(lists_atom(ls, "B.Cu"@)) by {
        assert(v_as_atom(v_children(ls)[2]) == Some("B.Cu"@));
    }
    if v.locked {
        lemma_first_tagged_unique(w, "locked"@, 6);
        reveal_strlit("yes");
        assert(spec_locked(w));
    } else {
        assert forall|k: int| !is_first_tagged(w, "locked"@, k) by {
            if 0 <= k < c.len() {
                assert(v_head(c[k]) != Some("locked"@));
            }
        }
        assert(!spec_locked(w));
    }
}


proof fn lemma_list_head(items: Seq<(Seq<char>, Layout)>, tw: Seq<char>, n: nat, tag: Seq<char>)
    requires
        n > 0,
        items.len() > 0,
        items[0] == tag_item(tag),
    ensures
        v_head(lview(Layout::List(items, tw), n)) == Some(tag),
{
    lemma_list_children(items, tw, n);
}

/// The tags of the header entries, in order.
pub open spec fn header_tags() -> Seq<Seq<char>> {
    seq!["version"@, "generator"@, "generator_version"@, "general"@, "paper"@, "layers"@, "setup"@, "net"@]
}

proof fn lemma_root_tags_distinct()
    ensures
        forall|k: int|
            0 <= k < 8 ==> #[trigger] header_tags()[k] != "segment"@ && header_tags()[k] != "via"@ && header_tags()[k]
                != "footprint"@,
        forall|k: int| 0 <= k < 5 ==> #[trigger] header_tags()[k] != "layers"@,
        "net"@ != "segment"@,
        "net"@ != "via"@,
        "net"@ != "footprint"@,
        "segment"@ != "via"@,
        "segment"@ != "footprint"@,
        "via"@ != "footprint"@,
{
    reveal_strlit("version");
    reveal_strlit("generator");
    reveal_strlit("generator_version");
    reveal_strlit("general");
    reveal_strlit("paper");
    reveal_strlit("layers");
    reveal_strlit("setup");
    reveal_strlit("net");
    reveal_strlit("segment");
    reveal_strlit("via");
    reveal_strlit("footprint");
    lemma_ne_at("version"@, "segment"@, 0);
    lemma_ne_len("generator"@, "segment"@);
    lemma_ne_len("generator_version"@, "segment"@);
    lemma_ne_at("general"@, "segment"@, 0);
    lemma_ne_len("paper"@, "segment"@);
    lemma_ne_len("layers"@, "segment"@);
    lemma_ne_len("setup"@, "segment"@);
    lemma_ne_len("net"@, "segment"@);
    lemma_ne_len("version"@, "via"@);
    lemma_ne_len("generator"@, "via"@);
    lemma_ne_len("generator_version"@, "via"@);
    lemma_ne_len("general"@, "via"@);
    lemma_ne_len("paper"@, "via"@);
    lemma_ne_len("layers"@, "via"@);
    lemma_ne_len("setup"@, "via"@);
    lemma_ne_at("net"@, "via"@, 0);
    lemma_ne_len("version"@, "footprint"@);
    lemma_ne_at("generator"@, "footprint"@, 0);
    lemma_ne_len("generator_version"@, "footprint"@);
    lemma_ne_len("general"@, "footprint"@);
    lemma_ne_len("paper"@, "footprint"@);
    lemma_ne_len("layers"@, "footprint"@);
    lemma_ne_len("setup"@, "footprint"@);
    lemma_ne_len("net"@, "footprint"@);
    lemma_ne_len("segment"@, "via"@);
    lemma_ne_len("segment"@, "footprint"@);
    lemma_ne_len("via"@, "footprint"@);
    lemma_ne_len("version"@, "layers"@);
    lemma_ne_len("generator"@, "layers"@);
    lemma_ne_len("generator_version"@, "layers"@);
    lemma_ne_len("general"@, "layers"@);
    lemma_ne_len("paper"@, "layers"@);
    assert forall|k: int|
        0 <= k < 8 implies #[trigger] header_tags()[k] != "segment"@ && header_tags()[k] != "via"@ && header_tags()[k]
            != "footprint"@ by {
        if k == 0 {
        } else if k == 1 {
        } else if k == 2 {
        } else if k == 3 {
        } else if k == 4 {
        } else if k == 5 {
        } else if k == 6 {
        } else {
        }
    }
    assert forall|k: int| 0 <= k < 5 implies #[trigger] header_tags()[k] != "layers"@ by {
        if k == 0 {
        } else if k == 1 {
        } else if k == 2 {
        } else if k == 3 {
        } else {
        }
    }
}

/// The expression the fixture's board text reads back as.
pub open spec fn pcb_view(b: &Board) -> SexprView {
    lview(pcb_layout(b), 4)
}

proof fn lemma_root_child(b: &Board, j: int)
    requires
        0 <= j < pcb_items(b).len(),
    ensures
        v_children(pcb_view(b)).len() == pcb_items(b).len(),
        v_children(pcb_view(b))[j] == lview(pcb_items(b)[j].1, 3),
{
    lemma_list_children(pcb_items(b), indent(0), 4);
}

proof fn lemma_root_head_header(b: &Board, j: int)
    requires
        0 <= j < 9,
    ensures
        j == 0 ==> v_head(v_children(pcb_view(b))[j]) == None::<Seq<char>>,
        j > 0 ==> v_head(v_children(pcb_view(b))[j]) == Some(header_tags()[j - 1]),
        j == 6 ==> v_children(pcb_view(b))[j] == lview(layers_layout(), 3),
{
    lemma_pcb_len(b);
    lemma_root_child(b, j);
    lemma_pcb_item(b, j);
    if j == 1 {
        lemma_pair_view("version"@, Layout::Bare("20241229"@), 2);
    } else if j == 2 {
        lemma_pair_view("generator"@, Layout::Quoted("tessera"@), 2);
    } else if j == 3 {
        lemma_pair_view("generator_version"@, Layout::Quoted("0.1"@), 2);
    } else if j == 4 {
        lemma_list_head(seq![tag_item("general"@), line(2, pair("thickness"@, Layout::Bare("1.6"@)))], indent(1), 3, "general"@);
    } else if j == 5 {
        lemma_pair_view("paper"@, Layout::Quoted("A4"@), 2);
    } else if j == 6 {
        lemma_list_head(
            seq![
                tag_item("layers"@),
                line(2, triple("0"@, Layout::Quoted("F.Cu"@), Layout::Bare("signal"@))),
                line(2, triple("2"@, Layout::Quoted("B.Cu"@), Layout::Bare("signal"@))),
            ],
            indent(1),
            3,
            "layers"@,
        );
    } else if j == 7 {
        lemma_list_head(seq![tag_item("setup"@), line(2, pair("pad_to_mask_clearance"@, Layout::Bare("0"@)))], indent(1), 3, "setup"@);
    } else if j == 8 {
        lemma_triple_view("net"@, Layout::Bare(spec_decimal(0)), Layout::Quoted(Seq::empty()), 2);
    }
}

proof fn lemma_root_head_net(b: &Board, j: int)
    requires
        9 <= j < 9 + b.nets@.len(),
    ensures
        v_head(v_children(pcb_view(b))[j]) == Some("net"@),
{
    lemma_pcb_len(b);
    lemma_root_child(b, j);
    lemma_pcb_item(b, j);
    let n = b.nets@[j - 9];
    lemma_triple_view("net"@, Layout::Bare(spec_decimal(n.id.0 as nat)), Layout::Quoted(n.name@), 2);
}

proof fn lemma_root_track(b: &Board, i: int)
    requires
        0 <= i < b.tracks@.len(),
    ensures
        v_children(pcb_view(b))[9 + b.nets@.len() + i] == lview(track_layout(b.tracks@[i], (i + 1) as nat), 3),
        v_head(v_children(pcb_view(b))[9 + b.nets@.len() + i]) == Some("segment"@),
{
    lemma_pcb_len(b);
    let j = 9 + b.nets@.len() + i;
    lemma_root_child(b, j);
    lemma_pcb_item(b, j);
    let t = b.tracks@[i];
    lemma_list_head(
        match track_layout(t, (i + 1) as nat) {
            Layout::List(its, _) => its,
            _ => Seq::empty(),
        },
        indent(1),
        3,
        "segment"@,
    );
}

proof fn lemma_root_via(b: &Board, i: int)
    requires
        0 <= i < b.vias@.len(),
    ensures
        v_children(pcb_view(b))[9 + b.nets@.len() + b.tracks@.len() + i] == lview(
            via_layout(b.vias@[i], (b.tracks@.len() + i + 1) as nat),
            3,
        ),
        v_head(v_children(pcb_view(b))[9 + b.nets@.len() + b.tracks@.len() + i]) == Some("via"@),
{
    lemma_pcb_len(b);
    let j = 9 + b.nets@.len() + b.tracks@.len() + i;
    lemma_root_child(b, j);
    lemma_pcb_item(b, j);
    let v = b.vias@[i];
    lemma_list_head(
        match via_layout(v, (b.tracks@.len() + i + 1) as nat) {
            Layout::List(its, _) => its,
            _ => Seq::empty(),
        },
        indent(1),
        3,
        "via"@,
    );
}

proof fn lemma_root_pad(b: &Board, i: int)
    requires
        0 <= i < b.pads@.len(),
    ensures
        v_children(pcb_view(b))[9 + b.nets@.len() + b.tracks@.len() + b.vias@.len() + i] == lview(
            pad_layout(b, b.pads@[i], (b.tracks@.len() + b.vias@.len() + 2 * i + 1) as nat),
            3,
        ),
        v_head(v_children(pcb_view(b))[9 + b.nets@.len() + b.tracks@.len() + b.vias@.len() + i]) == Some(
            "footprint"@,
        ),
{
    lemma_pcb_len(b);
    let j = 9 + b.nets@.len() + b.tracks@.len() + b.vias@.len() + i;
    lemma_root_child(b, j);
    lemma_pcb_item(b, j);
    let p = b.pads@[i];
    lemma_list_head(
        match pad_layout(b, p, (b.tracks@.len() + b.vias@.len() + 2 * i + 1) as nat) {
            Layout::List(its, _) => its,
            _ => Seq::empty(),
        },
        indent(1),
        3,
        "footprint"@,
    );
}


proof fn lemma_find_all_block(c: Seq<SexprView>, name: Seq<char>, lo: int, hi: int)
    requires
        0 <= lo <= hi <= c.len(),
        forall|j: int| 0 <= j < c.len() ==> ((v_head(#[trigger] c[j]) == Some(name)) == (lo <= j < hi)),
    ensures
        v_find_all(SexprView::List(c), name) == c.subrange(lo, hi),
    decreases c.len(),
{
    reveal(Seq::filter);
    if c.len() == 0 {
        assert(c.subrange(lo, hi) =~= c);
    } else {
        let d = c.drop_last();
        let hi2 = if hi > d.len() {
            d.len() as int
        } else {
            hi
        };
        let lo2 = if lo > hi2 {
            hi2
        } else {
            lo
        };
        assert forall|j: int| 0 <= j < d.len() implies ((v_head(#[trigger] d[j]) == Some(name)) == (lo2 <= j < hi2)) by {
            assert(d[j] == c[j]);
        }
        lemma_find_all_block(d, name, lo2, hi2);
        assert(v_children(SexprView::List(d)) == d);
        if v_head(c.last()) == Some(name) {
            assert(d.subrange(lo2, hi2).push(c.last()) =~= c.subrange(lo, hi));
        } else {
            assert(d.subrange(lo2, hi2) =~= c.subrange(lo, hi));
        }
    }
}

/// The `(segment ...)` entries the fixture's board text reads back with.
proof fn lemma_segments(b: &Board)
    ensures
        v_find_all(pcb_view(b), "segment"@).len() == b.tracks@.len(),
        forall|i: int|
            0 <= i < b.tracks@.len() ==> #[trigger] v_find_all(pcb_view(b), "segment"@)[i] == lview(
                track_layout(b.tracks@[i], (i + 1) as nat),
                3,
            ),
{
    lemma_pcb_len(b);
    lemma_root_child(b, 0);
    lemma_root_tags_distinct();
    let c = v_children(pcb_view(b));
    let nn = b.nets@.len() as int;
    let nt = b.tracks@.len() as int;
    let nv = b.vias@.len() as int;
    let lo = 9 + nn;
    let hi = 9 + nn + nt;
    assert forall|j: int| 0 <= j < c.len() implies ((v_head(#[trigger] c[j]) == Some("segment"@)) == (lo <= j < hi)) by {
        if j < 9 {
            lemma_root_head_header(b, j);
        } else if j < lo {
            lemma_root_head_net(b, j);
        } else if j < hi {
            lemma_root_track(b, j - lo);
        } else if j < hi + nv {
            lemma_root_via(b, j - hi);
        } else {
            lemma_root_pad(b, j - hi - nv);
        }
    }
    assert(pcb_view(b) == SexprView::List(c));
    lemma_find_all_block(c, "segment"@, lo, hi);
    assert forall|i: int| 0 <= i < nt implies #[trigger] v_find_all(pcb_view(b), "segment"@)[i] == lview(
        track_layout(b.tracks@[i], (i + 1) as nat),
        3,
    ) by {
        lemma_root_track(b, i);
    }
}

/// The `(via ...)` entries the fixture's board text reads back with.
proof fn lemma_via_entries(b: &Board)
    ensures
        v_find_all(pcb_view(b), "via"@).len() == b.vias@.len(),
        forall|i: int|
            0 <= i < b.vias@.len() ==> #[trigger] v_find_all(pcb_view(b), "via"@)[i] == lview(
                via_layout(b.vias@[i], (b.tracks@.len() + i + 1) as nat),
                3,
            ),
{
    lemma_pcb_len(b);
    lemma_root_child(b, 0);
    lemma_root_tags_distinct();
    let c = v_children(pcb_view(b));
    let nn = b.nets@.len() as int;
    let nt = b.tracks@.len() as int;
    let nv = b.vias@.len() as int;
    let lo = 9 + nn + nt;
    let hi = lo + nv;
    assert forall|j: int| 0 <= j < c.len() implies ((v_head(#[trigger] c[j]) == Some("via"@)) == (lo <= j < hi)) by {
        if j < 9 {
            lemma_root_head_header(b, j);
        } else if j < 9 + nn {
            lemma_root_head_net(b, j);
        } else if j < lo {
            lemma_root_track(b, j - 9 - nn);
        } else if j < hi {
            lemma_root_via(b, j - lo);
        } else {
            lemma_root_pad(b, j - hi);
        }
    }
    assert(pcb_view(b) == SexprView::List(c));
    lemma_find_all_block(c, "via"@, lo, hi);
    assert forall|i: int| 0 <= i < nv implies #[trigger] v_find_all(pcb_view(b), "via"@)[i] == lview(
        via_layout(b.vias@[i], (nt + i + 1) as nat),
        3,
    ) by {
        lemma_root_via(b, i);
    }
}


proof fn lemma_tracks_read(b: &Board, k: int)
    requires
        b.geometry_valid(),
        forall|i: int| 0 <= i < b.tracks@.len() ==> (#[trigger] b.tracks@[i]).layer.0 <= 1,
        0 <= k <= b.tracks@.len(),
    ensures
        tracks_scan(v_find_all(pcb_view(b), "segment"@), k) == (
            Seq::new(k as nat, |i: int| renumbered_track(b.tracks@[i], i)),
            Seq::<Seq<char>>::empty(),
        ),
    decreases k,
{
    let segs = v_find_all(pcb_view(b), "segment"@);
    if k == 0 {
        assert(Seq::new(0, |i: int| renumbered_track(b.tracks@[i], i)) =~= Seq::<Track>::empty());
    } else {
        lemma_tracks_read(b, k - 1);
        lemma_segments(b);
        let t = b.tracks@[k - 1];
        assert(segs[k - 1] == lview(track_layout(t, k as nat), 3));
        lemma_track_reads(t, k as nat, k - 1);
        assert(Seq::new((k - 1) as nat, |i: int| renumbered_track(b.tracks@[i], i)).push(renumbered_track(t, k - 1))
            =~= Seq::new(k as nat, |i: int| renumbered_track(b.tracks@[i], i)));
    }
}

proof fn lemma_vias_read(b: &Board, k: int)
    requires
        b.geometry_valid(),
        0 <= k <= b.vias@.len(),
    ensures
        vias_scan(v_find_all(pcb_view(b), "via"@), k) == (
            Seq::new(k as nat, |i: int| renumbered_via(b.vias@[i], i)),
            Seq::<Seq<char>>::empty(),
        ),
    decreases k,
{
    let vs = v_find_all(pcb_view(b), "via"@);
    if k == 0 {
        assert(Seq::new(0, |i: int| renumbered_via(b.vias@[i], i)) =~= Seq::<Via>::empty());
    } else {
        lemma_vias_read(b, k - 1);
        lemma_via_entries(b);
        let v = b.vias@[k - 1];
        let u = (b.tracks@.len() + k) as nat;
        assert(vs[k - 1] == lview(via_layout(v, u), 3));
        lemma_via_reads(v, u, k - 1);
        assert(Seq::new((k - 1) as nat, |i: int| renumbered_via(b.vias@[i], i)).push(renumbered_via(v, k - 1))
            =~= Seq::new(k as nat, |i: int| renumbered_via(b.vias@[i], i)));
    }
}

proof fn lemma_root_is_pcb(b: &Board)
    ensures
        v_head(pcb_view(b)) == Some("kicad_pcb"@),
        has_copper(pcb_view(b)),
{
    lemma_pcb_len(b);
    lemma_root_child(b, 0);
    lemma_pcb_item(b, 0);
    lemma_root_tags_distinct();
    let root = pcb_view(b);
    let c = v_children(root);
    assert(c[0] == SexprView::Atom("kicad_pcb"@));
    lemma_root_head_header(b, 6);
    assert forall|j: int| 0 <= j < 6 implies v_head(#[trigger] c[j]) != Some("layers"@) by {
        lemma_root_head_header(b, j);
    }
    lemma_first_tagged_unique(root, "layers"@, 6);
    let ls = c[6];
    let li = seq![
        tag_item("layers"@),
        line(2, triple("0"@, Layout::Quoted("F.Cu"@), Layout::Bare("signal"@))),
        line(2, triple("2"@, Layout::Quoted("B.Cu"@), Layout::Bare("signal"@))),
    ];
    lemma_list_children(li, indent(1), 3);
    lemma_triple_view("0"@, Layout::Quoted("F.Cu"@), Layout::Bare("signal"@), 1);
    lemma_triple_view("2"@, Layout::Quoted("B.Cu"@), Layout::Bare("signal"@), 1);
    assert(v_atom(v_children(ls)[1], 1) == Some("F.Cu"@));
    assert(v_atom(v_children(ls)[2], 1) == Some("B.Cu"@));
    assert(declares_layer(ls, "F.Cu"@));
    assert(declares_layer(ls, "B.Cu"@));
}

/// The boards the fixture writer reads back faithfully: geometry within
/// range, tracks on the two copper layers, and net names that need no
/// escapes between quotes.
pub open spec fn fixture_scope(b: &Board) -> bool {
    &&& b.geometry_valid()
    &&& names_quotable(b)
    &&& forall|i: int| 0 <= i < b.tracks@.len() ==> (#[trigger] b.tracks@[i]).layer.0 <= 1
}

/// Writing a board as a fixture and reading both files back. The board
/// text reads back as `lemma_fixture_reads_back` says; where serde_json
/// reads the project text as listing the board's classes (which must be
/// classes a project file can carry), the classes read back are exactly
/// the board's, with no warning.
pub proof fn lemma_fixture_round_trip(b: &Board)
    requires
        fixture_scope(b),
        classes_writable(b.net_classes@),
        json_lists_classes(pro_text(b), b.net_classes@),
    ensures
        spec_parse(pcb_text(b)) == Ok::<SexprView, Seq<char>>(pcb_view(b)),
        v_head(pcb_view(b)) == Some("kicad_pcb"@),
        has_copper(pcb_view(b)),
        ({
            let segs = v_find_all(pcb_view(b), "segment"@);
            tracks_scan(segs, segs.len() as int) == (
                b.tracks@.map(|i: int, t: Track| renumbered_track(t, i)),
                Seq::<Seq<char>>::empty(),
            )
        }),
        ({
            let vs = v_find_all(pcb_view(b), "via"@);
            vias_scan(vs, vs.len() as int) == (
                b.vias@.map(|i: int, v: Via| renumbered_via(v, i)),
                Seq::<Seq<char>>::empty(),
            )
        }),
        project_classes(pro_text(b)) == class_models(b.net_classes@),
        project_warnings(pro_text(b)) == Seq::<Seq<char>>::empty(),
{
    lemma_fixture_reads_back(b);
    lemma_project_reads_back(pro_text(b), b.net_classes@);
}

/// Writing a board as a fixture and reading the board text back: the text
/// parses, its root is a `kicad_pcb` declaring both copper layers, and the
/// board extraction gives back every track (renumbered in order) and
/// every via (renumbered, as a through via from `F.Cu` to `B.Cu`) with no
/// warning.
pub proof fn lemma_fixture_reads_back(b: &Board)
    requires
        fixture_scope(b),
    ensures
        spec_parse(pcb_text(b)) == Ok::<SexprView, Seq<char>>(pcb_view(b)),
        v_head(pcb_view(b)) == Some("kicad_pcb"@),
        has_copper(pcb_view(b)),
        ({
            let segs = v_find_all(pcb_view(b), "segment"@);
            tracks_scan(segs, segs.len() as int) == (
                b.tracks@.map(|i: int, t: Track| renumbered_track(t, i)),
                Seq::<Seq<char>>::empty(),
            )
        }),
        ({
            let vs = v_find_all(pcb_view(b), "via"@);
            vias_scan(vs, vs.len() as int) == (
                b.vias@.map(|i: int, v: Via| renumbered_via(v, i)),
                Seq::<Seq<char>>::empty(),
            )
        }),
{
    lemma_fixture_parses(b);
    lemma_root_is_pcb(b);
    lemma_segments(b);
    lemma_via_entries(b);
    lemma_tracks_read(b, b.tracks@.len() as int);
    lemma_vias_read(b, b.vias@.len() as int);
    assert(Seq::new(b.tracks@.len(), |i: int| renumbered_track(b.tracks@[i], i)) =~= b.tracks@.map(
        |i: int, t: Track| renumbered_track(t, i),
    ));
    assert(Seq::new(b.vias@.len(), |i: int| renumbered_via(b.vias@[i], i)) =~= b.vias@.map(
        |i: int, v: Via| renumbered_via(v, i),
    ));
}


proof fn lemma_pad_tags_distinct()
    ensures
        "layer"@ != "at"@,
        "uuid"@ != "at"@,
        "layer"@ != "locked"@,
        "uuid"@ != "locked"@,
        "at"@ != "locked"@,
        "attr"@ != "locked"@,
        "pad"@ != "locked"@,
        "layer"@ != "pad"@,
        "uuid"@ != "pad"@,
        "at"@ != "pad"@,
        "locked"@ != "pad"@,
        "attr"@ != "pad"@,
        "layer"@ != "property"@,
        "uuid"@ != "property"@,
        "at"@ != "property"@,
        "locked"@ != "property"@,
        "attr"@ != "property"@,
        "pad"@ != "property"@,
        "at"@ != "size"@,
        "at"@ != "layers"@,
        "size"@ != "layers"@,
        "at"@ != "net"@,
        "size"@ != "net"@,
        "layers"@ != "net"@,
{
    reveal_strlit("layer");
    reveal_strlit("uuid");
    reveal_strlit("at");
    reveal_strlit("locked");
    reveal_strlit("attr");
    reveal_strlit("pad");
    reveal_strlit("property");
    reveal_strlit("size");
    reveal_strlit("layers");
    reveal_strlit("net");
    assert("layer"@.len() == 5);
    assert("uuid"@.len() == 4);
    assert("at"@.len() == 2);
    assert("locked"@.len() == 6);
    assert("attr"@.len() == 4);
    assert("pad"@.len() == 3);
    assert("property"@.len() == 8);
    assert("size"@.len() == 4);
    assert("layers"@.len() == 6);
    assert("net"@.len() == 3);
    lemma_ne_len("layer"@, "at"@);
    lemma_ne_len("uuid"@, "at"@);
    lemma_ne_len("layer"@, "locked"@);
    lemma_ne_len("uuid"@, "locked"@);
    lemma_ne_len("at"@, "locked"@);
    lemma_ne_len("attr"@, "locked"@);
    lemma_ne_len("pad"@, "locked"@);
    lemma_ne_len("layer"@, "pad"@);
    lemma_ne_len("uuid"@, "pad"@);
    lemma_ne_len("at"@, "pad"@);
    lemma_ne_len("locked"@, "pad"@);
    lemma_ne_len("attr"@, "pad"@);
    lemma_ne_len("layer"@, "property"@);
    lemma_ne_len("uuid"@, "property"@);
    lemma_ne_len("at"@, "property"@);
    lemma_ne_len("locked"@, "property"@);
    lemma_ne_len("attr"@, "property"@);
    lemma_ne_len("pad"@, "property"@);
    lemma_ne_len("at"@, "size"@);
    lemma_ne_len("at"@, "layers"@);
    lemma_ne_len("size"@, "layers"@);
    lemma_ne_len("at"@, "net"@);
    lemma_ne_len("size"@, "net"@);
    lemma_ne_len("layers"@, "net"@);
}

proof fn lemma_zero_parses()
    ensures
        spec_parse_mm_nm("0"@) == Some(0i64),
{
    reveal(spec_parse_plain_mm);
    reveal_strlit("0");
    let s = "0"@;
    assert(s.len() == 1 && s[0] == '0');
    assert(s.drop_first() =~= Seq::<char>::empty());
    reveal_with_fuel(index_of, 2);
    assert(index_of(s, '.') == -1);
    reveal_with_fuel(exp_index, 2);
    assert(exp_index(s) == -1);
    assert(s.drop_last() =~= Seq::<char>::empty());
    reveal_with_fuel(digits_value, 2);
    assert(digits_value(s) == 0);
    reveal_with_fuel(frac_millionths, 7);
    assert(frac_millionths(Seq::<char>::empty(), 6) == 0);
}

proof fn lemma_no_reference(cs: Seq<SexprView>, k: int)
    requires
        0 <= k,
        forall|j: int| k <= j < cs.len() ==> !is_reference_property(#[trigger] cs[j]),
    ensures
        reference_from(cs, k) == None::<Seq<char>>,
    decreases cs.len() - k,
{
    if k < cs.len() {
        assert(!is_reference_property(cs[k]));
        lemma_no_reference(cs, k + 1);
    }
}

/// Pad `p` read back as the `i`th pad: its circle, layers, net and lock
/// state, with the number `"1"` the writer gives every pad and no
/// reference.
pub open spec fn read_pad(p: Pad, i: int) -> PadModel {
    PadModel {
        id: PadId(i as u32),
        circle: p.circle(),
        layers: p.layers@,
        net: p.net,
        locked: p.locked,
        reference: None,
        number: Some("1"@),
    }
}

/// A pad the writer's single-pad footprint carries whole: a diameter in
/// range, exactly one copper layer, and a net other than 0.
pub open spec fn pad_in_scope(p: Pad) -> bool {
    &&& p.circle().center.in_range()
    &&& dim_ok(p.circle().radius_nm * 2)
    &&& p.layers@.len() == 1
    &&& p.layers@[0].0 <= 1
    &&& p.net.0 != 0
}

proof fn lemma_pad_entry_reads(b: &Board, p: Pad, u: nat, idx: u32)
    requires
        pad_in_scope(p),
    ensures
        spec_pad(lview(pad_entry_layout(b, p, u), 2), p.circle().center, p.locked, None, PadId(idx)) == Some(
            PadModel { id: PadId(idx), ..read_pad(p, 0) },
        ),
{
    let items = match pad_entry_layout(b, p, u) {
        Layout::List(items, _) => items,
        _ => Seq::empty(),
    };
    let pv = lview(pad_entry_layout(b, p, u), 2);
    let c = v_children(pv);
    let r = p.circle().radius_nm;
    let d = spec_mm6(r * 2);
    let ln = pad_layer_name(p);
    lemma_list_children(items, indent(2), 2);
    lemma_pad_tags_distinct();
    lemma_triple_view("at"@, Layout::Bare("0"@), Layout::Bare("0"@), 0);
    lemma_triple_view("size"@, Layout::Bare(d), Layout::Bare(d), 0);
    lemma_pair_view("layers"@, Layout::Quoted(ln), 0);
    lemma_triple_view("net"@, Layout::Bare(spec_decimal(p.net.0 as nat)), Layout::Quoted(pad_net_name(b, p)), 0);
    lemma_pair_view("uuid"@, Layout::Quoted(uuid_text(u)), 0);
    assert(v_head(c[0]) == None::<Seq<char>>);
    assert(v_head(c[1]) == None::<Seq<char>>);
    assert(v_head(c[2]) == None::<Seq<char>>);
    assert(v_head(c[3]) == None::<Seq<char>>);
    reveal_strlit("circle");
    assert(v_atom(pv, 3) == Some("circle"@));
    assert(v_atom(pv, 1) == Some("1"@));
    lemma_first_tagged_unique(pv, "at"@, 4);
    lemma_first_tagged_unique(pv, "size"@, 5);
    lemma_first_tagged_unique(pv, "layers"@, 6);
    lemma_first_tagged_unique(pv, "net"@, 7);
    lemma_zero_parses();
    lemma_mm6_parses_back((r * 2) as i64);
    lemma_u32_parses_back(p.net.0);
    assert(child_xy(pv, "at"@) == Some(Point { x: 0, y: 0 }));
    assert(child_mm(pv, "size"@) == Some((r * 2) as i64));
    assert(child_net(pv) == Some(p.net.0));
    let ls = c[6];
    lemma_list_children(seq![(Seq::<char>::empty(), Layout::Bare("layers"@)), (seq![' '], Layout::Quoted(ln))], Seq::empty(), 1);
    lemma_tags_distinct();
    reveal_with_fuel(layer_ids_upto, 3);
    assert(listed_layers(ls) =~= p.layers@);
}

proof fn lemma_footprint_reads(b: &Board, p: Pad, u: nat, idx: u32)
    requires
        pad_in_scope(p),
    ensures
        ({
            let fp = lview(pad_layout(b, p, u), 3);
            let pads = v_find_all(fp, "pad"@);
            &&& child_xy(fp, "at"@) == Some(p.circle().center)
            &&& spec_locked(fp) == p.locked
            &&& fp_reference(fp) == None::<Seq<char>>
            &&& fp_pads(pads, pads.len() as int, idx, p.circle().center, p.locked, None) == (
                next_pad_index(idx),
                seq![PadModel { id: PadId(idx), ..read_pad(p, 0) }],
                Seq::<Seq<char>>::empty(),
            )
        }),
{
    let items = match pad_layout(b, p, u) {
        Layout::List(items, _) => items,
        _ => Seq::empty(),
    };
    let fp = lview(pad_layout(b, p, u), 3);
    let c = v_children(fp);
    let ctr = p.circle().center;
    lemma_list_children(items, indent(1), 3);
    lemma_pad_tags_distinct();
    lemma_pair_view("layer"@, Layout::Quoted(pad_layer_name(p)), 1);
    lemma_pair_view("uuid"@, Layout::Quoted(uuid_text(u)), 1);
    lemma_triple_view("at"@, Layout::Bare(spec_mm6(ctr.x as int)), Layout::Bare(spec_mm6(ctr.y as int)), 1);
    lemma_pair_view("locked"@, Layout::Bare("yes"@), 1);
    lemma_pair_view("attr"@, Layout::Bare("smd"@), 1);
    let pe = match pad_entry_layout(b, p, u + 1) {
        Layout::List(its, _) => its,
        _ => Seq::empty(),
    };
    lemma_list_head(pe, indent(2), 2, "pad"@);
    assert(v_head(c[0]) == None::<Seq<char>>);
    assert(v_head(c[1]) == None::<Seq<char>>);
    lemma_first_tagged_unique(fp, "at"@, 4);
    lemma_mm6_parses_back(ctr.x);
    lemma_mm6_parses_back(ctr.y);
    assert(child_xy(fp, "at"@) == Some(ctr));
    if p.locked {
        lemma_first_tagged_unique(fp, "locked"@, 5);
        reveal_strlit("yes");
        assert(spec_locked(fp));
    } else {
        assert forall|k: int| !is_first_tagged(fp, "locked"@, k) by {
            if 0 <= k < c.len() {
                assert(v_head(c[k]) != Some("locked"@));
            }
        }
        assert(!spec_locked(fp));
    }
    assert forall|j: int| 0 <= j < c.len() implies !is_reference_property(#[trigger] c[j]) by {
        assert(v_head(c[j]) != Some("property"@));
    }
    lemma_no_reference(c, 0);
    let last = c.len() - 1;
    assert forall|j: int| 0 <= j < c.len() implies ((v_head(#[trigger] c[j]) == Some("pad"@)) == (last <= j < c.len())) by {
        if j < last {
            assert(v_head(c[j]) != Some("pad"@));
        }
    }
    assert(fp == SexprView::List(c));
    lemma_find_all_block(c, "pad"@, last, c.len() as int);
    let pads = v_find_all(fp, "pad"@);
    assert(pads =~= seq![lview(pad_entry_layout(b, p, u + 1), 2)]);
    lemma_pad_entry_reads(b, p, u + 1, idx);
    reveal_with_fuel(fp_pads, 2);
}


/// The `(footprint ...)` entries the fixture's board text reads back with.
proof fn lemma_footprints(b: &Board)
    ensures
        v_find_all(pcb_view(b), "footprint"@).len() == b.pads@.len(),
        forall|i: int|
            0 <= i < b.pads@.len() ==> #[trigger] v_find_all(pcb_view(b), "footprint"@)[i] == lview(
                pad_layout(b, b.pads@[i], (b.tracks@.len() + b.vias@.len() + 2 * i + 1) as nat),
                3,
            ),
{
    lemma_pcb_len(b);
    lemma_root_child(b, 0);
    lemma_root_tags_distinct();
    let c = v_children(pcb_view(b));
    let nn = b.nets@.len() as int;
    let nt = b.tracks@.len() as int;
    let nv = b.vias@.len() as int;
    let lo = 9 + nn + nt + nv;
    let hi = c.len() as int;
    assert forall|j: int| 0 <= j < c.len() implies ((v_head(#[trigger] c[j]) == Some("footprint"@)) == (lo <= j < hi)) by {
        if j < 9 {
            lemma_root_head_header(b, j);
        } else if j < 9 + nn {
            lemma_root_head_net(b, j);
        } else if j < 9 + nn + nt {
            lemma_root_track(b, j - 9 - nn);
        } else if j < lo {
            lemma_root_via(b, j - 9 - nn - nt);
        } else {
            lemma_root_pad(b, j - lo);
        }
    }
    assert(pcb_view(b) == SexprView::List(c));
    lemma_find_all_block(c, "footprint"@, lo, hi);
    assert forall|i: int| 0 <= i < b.pads@.len() implies #[trigger] v_find_all(pcb_view(b), "footprint"@)[i] == lview(
        pad_layout(b, b.pads@[i], (nt + nv + 2 * i + 1) as nat),
        3,
    ) by {
        lemma_root_pad(b, i);
    }
}

proof fn lemma_pads_read(b: &Board, k: int)
    requires
        forall|i: int| 0 <= i < b.pads@.len() ==> pad_in_scope(#[trigger] b.pads@[i]),
        b.pads@.len() <= u32::MAX,
        0 <= k <= b.pads@.len(),
    ensures
        pads_scan(v_find_all(pcb_view(b), "footprint"@), k) == (
            k as u32,
            Seq::new(k as nat, |i: int| read_pad(b.pads@[i], i)),
            Seq::<Seq<char>>::empty(),
        ),
    decreases k,
{
    let fps = v_find_all(pcb_view(b), "footprint"@);
    if k == 0 {
        assert(Seq::new(0, |i: int| read_pad(b.pads@[i], i)) =~= Seq::<PadModel>::empty());
    } else {
        lemma_pads_read(b, k - 1);
        lemma_footprints(b);
        let p = b.pads@[k - 1];
        let u = (b.tracks@.len() + b.vias@.len() + 2 * (k - 1) + 1) as nat;
        assert(pad_in_scope(p));
        assert(fps[k - 1] == lview(pad_layout(b, p, u), 3));
        lemma_footprint_reads(b, p, u, (k - 1) as u32);
        assert(PadModel { id: PadId((k - 1) as u32), ..read_pad(p, 0) } == read_pad(p, k - 1));
        let prev = Seq::new((k - 1) as nat, |i: int| read_pad(b.pads@[i], i));
        assert(prev + seq![read_pad(p, k - 1)] =~= Seq::new(k as nat, |i: int| read_pad(b.pads@[i], i)));
        assert(Seq::<Seq<char>>::empty() + Seq::<Seq<char>>::empty() =~= Seq::<Seq<char>>::empty());
    }
}


proof fn lemma_net_tags_distinct()
    ensures
        forall|k: int| 0 <= k < 7 ==> #[trigger] header_tags()[k] != "net"@,
{
    reveal_strlit("version");
    reveal_strlit("generator");
    reveal_strlit("generator_version");
    reveal_strlit("general");
    reveal_strlit("paper");
    reveal_strlit("layers");
    reveal_strlit("setup");
    reveal_strlit("net");
    assert("net"@.len() == 3);
    assert("version"@.len() == 7);
    lemma_ne_len("version"@, "net"@);
    lemma_ne_len("generator"@, "net"@);
    lemma_ne_len("generator_version"@, "net"@);
    lemma_ne_len("general"@, "net"@);
    lemma_ne_len("paper"@, "net"@);
    lemma_ne_len("layers"@, "net"@);
    lemma_ne_len("setup"@, "net"@);
    assert forall|k: int| 0 <= k < 7 implies #[trigger] header_tags()[k] != "net"@ by {
        if k == 0 {
        } else if k == 1 {
        } else if k == 2 {
        } else if k == 3 {
        } else if k == 4 {
        } else if k == 5 {
        } else {
        }
    }
}

/// The `(net ...)` entries the fixture's board text reads back with: net
/// 0, then the board's nets in order.
proof fn lemma_net_entries(b: &Board)
    ensures
        v_find_all(pcb_view(b), "net"@).len() == b.nets@.len() + 1,
        net_entry(v_find_all(pcb_view(b), "net"@)[0]) == None::<(NetId, Seq<char>)>,
        forall|j: int|
            1 <= j <= b.nets@.len() ==> net_entry(#[trigger] v_find_all(pcb_view(b), "net"@)[j]) == (
            if b.nets@[j - 1].id.0 == 0 {
                None
            } else {
                Some((b.nets@[j - 1].id, b.nets@[j - 1].name@))
            }),
{
    lemma_pcb_len(b);
    lemma_root_child(b, 0);
    lemma_root_tags_distinct();
    lemma_net_tags_distinct();
    let c = v_children(pcb_view(b));
    let nn = b.nets@.len() as int;
    let nt = b.tracks@.len() as int;
    let nv = b.vias@.len() as int;
    let lo = 8;
    let hi = 9 + nn;
    assert forall|j: int| 0 <= j < c.len() implies ((v_head(#[trigger] c[j]) == Some("net"@)) == (lo <= j < hi)) by {
        if j < 9 {
            lemma_root_head_header(b, j);
        } else if j < 9 + nn {
            lemma_root_head_net(b, j);
        } else if j < 9 + nn + nt {
            lemma_root_track(b, j - 9 - nn);
        } else if j < 9 + nn + nt + nv {
            lemma_root_via(b, j - 9 - nn - nt);
        } else {
            lemma_root_pad(b, j - 9 - nn - nt - nv);
        }
    }
    assert(pcb_view(b) == SexprView::List(c));
    lemma_find_all_block(c, "net"@, lo, hi);
    lemma_pcb_item(b, 8);
    lemma_root_child(b, 8);
    lemma_triple_view("net"@, Layout::Bare(spec_decimal(0)), Layout::Quoted(Seq::empty()), 2);
    lemma_u32_parses_back(0);
    assert forall|j: int| 1 <= j <= nn implies net_entry(#[trigger] v_find_all(pcb_view(b), "net"@)[j]) == (
    if b.nets@[j - 1].id.0 == 0 {
        None
    } else {
        Some((b.nets@[j - 1].id, b.nets@[j - 1].name@))
    }) by {
        let n = b.nets@[j - 1];
        lemma_pcb_item(b, 8 + j);
        lemma_root_child(b, 8 + j);
        lemma_triple_view("net"@, Layout::Bare(spec_decimal(n.id.0 as nat)), Layout::Quoted(n.name@), 2);
        lemma_u32_parses_back(n.id.0);
    }
}

/// The ids of `b`'s nets are distinct and none is 0.
pub open spec fn nets_distinct(b: &Board) -> bool {
    &&& forall|i: int| 0 <= i < b.nets@.len() ==> (#[trigger] b.nets@[i]).id.0 != 0
    &&& forall|i: int, j: int| 0 <= i < j < b.nets@.len() ==> (#[trigger] b.nets@[i]).id != (#[trigger] b.nets@[j]).id
}

proof fn lemma_nets_read(b: &Board, k: int)
    requires
        nets_distinct(b),
        1 <= k <= b.nets@.len() + 1,
    ensures
        ({
            let names = net_names(v_find_all(pcb_view(b), "net"@), k);
            &&& forall|i: int|
                0 <= i < k - 1 ==> names.dom().contains(#[trigger] b.nets@[i].id) && names[b.nets@[i].id]
                    == b.nets@[i].name@
            &&& forall|id: NetId| #[trigger] names.dom().contains(id) ==> exists|i: int| 0 <= i < k - 1 && b.nets@[i].id == id
        }),
    decreases k,
{
    let ns = v_find_all(pcb_view(b), "net"@);
    lemma_net_entries(b);
    if k == 1 {
        assert(net_names(ns, 1) == net_names(ns, 0));
    } else {
        lemma_nets_read(b, k - 1);
        let n = b.nets@[k - 2];
        assert(net_entry(ns[k - 1]) == Some((n.id, n.name@)));
        let prev = net_names(ns, k - 1);
        let names = net_names(ns, k);
        assert(names == prev.insert(n.id, n.name@));
        assert forall|i: int| 0 <= i < k - 1 implies names.dom().contains(#[trigger] b.nets@[i].id) && names[b.nets@[i].id]
            == b.nets@[i].name@ by {
            if i < k - 2 {
                assert(b.nets@[i].id != b.nets@[k - 2].id);
            }
        }
        assert forall|id: NetId| #[trigger] names.dom().contains(id) implies exists|i: int| 0 <= i < k - 1 && b.nets@[i].id
            == id by {
            if id != n.id {
                assert(prev.dom().contains(id));
                let i = choose|i: int| 0 <= i < k - 2 && b.nets@[i].id == id;
                assert(0 <= i < k - 1 && b.nets@[i].id == id);
            } else {
                assert(b.nets@[k - 2].id == id);
            }
        }
    }
}


/// Writing a board as a fixture and reading the board text back: the
/// pads come back one per footprint, in order, each with its circle,
/// layer, net and lock state, the number `"1"` and no reference, with no
/// warning — for pads within the single-pad footprint's scope.
pub proof fn lemma_fixture_pads_read_back(b: &Board)
    requires
        names_quotable(b),
        forall|i: int| 0 <= i < b.pads@.len() ==> pad_in_scope(#[trigger] b.pads@[i]),
        b.pads@.len() <= u32::MAX,
    ensures
        spec_parse(pcb_text(b)) == Ok::<SexprView, Seq<char>>(pcb_view(b)),
        ({
            let fps = v_find_all(pcb_view(b), "footprint"@);
            &&& pads_scan(fps, fps.len() as int).1 == b.pads@.map(|i: int, p: Pad| read_pad(p, i))
            &&& pads_scan(fps, fps.len() as int).2 == Seq::<Seq<char>>::empty()
        }),
{
    lemma_fixture_parses(b);
    lemma_footprints(b);
    lemma_pads_read(b, b.pads@.len() as int);
    assert(Seq::new(b.pads@.len(), |i: int| read_pad(b.pads@[i], i)) =~= b.pads@.map(|i: int, p: Pad| read_pad(p, i)));
}

/// Writing a board as a fixture and reading the board text back: the net
/// declarations name every net of the board by its id, and no other id,
/// when the ids are distinct and none is 0.
pub proof fn lemma_fixture_nets_read_back(b: &Board)
    requires
        names_quotable(b),
        nets_distinct(b),
    ensures
        spec_parse(pcb_text(b)) == Ok::<SexprView, Seq<char>>(pcb_view(b)),
        ({
            let ns = v_find_all(pcb_view(b), "net"@);
            let names = net_names(ns, ns.len() as int);
            &&& forall|i: int|
                0 <= i < b.nets@.len() ==> names.dom().contains(#[trigger] b.nets@[i].id) && names[b.nets@[i].id]
                    == b.nets@[i].name@
            &&& forall|id: NetId| #[trigger] names.dom().contains(id) ==> exists|i: int| 0 <= i < b.nets@.len() && b.nets@[i].id == id
        }),
{
    lemma_fixture_parses(b);
    lemma_net_entries(b);
    lemma_nets_read(b, b.nets@.len() as int + 1);
}

} // verus!
