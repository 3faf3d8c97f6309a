use tessera::geom::circle::Circle;
use tessera::geom::point::Point;
use tessera::geom::segment::Segment;
use tessera::kicad::fixture::write_fixture;
use tessera::kicad::parser::{parse_board, ParseBoardError};
use tessera::model::board::Board;
use tessera::model::items::{
    Layer, LayerId, Net, NetClass, NetId, Pad, PadId, PadShape, Track, TrackId, Via, ViaId,
};

fn sample_board() -> Board {
    let mut board = Board::new();
    board.layers.push(Layer::copper(LayerId(0), "F.Cu"));
    board.layers.push(Layer::copper(LayerId(1), "B.Cu"));
    let mut class = NetClass::default_placeholder();
    class.clearance_nm = 180_000;
    board.insert_net_class(class);
    let net_a = NetId(1);
    let net_b = NetId(2);
    board.insert_net(Net {
        id: net_a,
        name: "A".to_string(),
        net_class: "Default".to_string(),
    });
    board.insert_net(Net {
        id: net_b,
        name: "B".to_string(),
        net_class: "Default".to_string(),
    });
    board.tracks.push(Track {
        id: TrackId(0),
        segment: Segment::new(Point::new(0, 0), Point::new(2_000_000, 1_000_000)),
        width_nm: 250_000,
        layer: LayerId(0),
        net: net_a,
        locked: false,
    });
    board.vias.push(Via {
        id: ViaId(0),
        position: Point::new(500_000, 500_000),
        diameter_nm: 600_000,
        drill_nm: 300_000,
        from_layer: LayerId(0),
        to_layer: LayerId(1),
        net: net_a,
        locked: true,
    });
    board.pads.push(Pad {
        id: PadId(0),
        shape: PadShape::Circle(Circle::new(Point::new(3_000_000, 0), 400_000)),
        layers: vec![LayerId(0)],
        net: net_b,
        locked: false,
        reference: None,
        number: None,
    });
    board
}

fn net_id(board: &Board, name: &str) -> NetId {
    board
        .nets
        .iter()
        .find(|n| n.name == name)
        .map(|n| n.id)
        .expect("net exists")
}

#[test]
fn write_then_parse_recovers_equivalent_board() {
    let original = sample_board();
    let (pcb_text, pro_text) = write_fixture(&original);
    let parsed = parse_board(&pcb_text, Some(&pro_text)).expect("parse fixture we just wrote");
    assert!(parsed.warnings.is_empty(), "unexpected warnings: {:?}", parsed.warnings);
    let board = parsed.board;
    assert_eq!(board.layers.len(), 2);
    assert_eq!(board.nets.len(), original.nets.len());
    assert_eq!(board.net_class_for(NetId(1)).unwrap().clearance_nm, 180_000);
    assert_eq!(board.tracks.len(), 1);
    let track = &board.tracks[0];
    assert_eq!(track.segment, original.tracks[0].segment);
    assert_eq!(track.width_nm, original.tracks[0].width_nm);
    assert_eq!(track.net, net_id(&original, "A"));
    assert_eq!(board.vias.len(), 1);
    let via = &board.vias[0];
    assert_eq!(via.position, original.vias[0].position);
    assert_eq!(via.diameter_nm, original.vias[0].diameter_nm);
    assert!(via.locked, "via lock state must round-trip");
    assert_eq!(board.pads.len(), 1);
    let PadShape::Circle(parsed_circle) = &board.pads[0].shape;
    let PadShape::Circle(original_circle) = &original.pads[0].shape;
    assert_eq!(parsed_circle, original_circle);
}

#[test]
fn fixture_writes_millimetres_with_six_decimals() {
    let (pcb, _) = write_fixture(&sample_board());
    assert!(pcb.starts_with("(kicad_pcb\n\t(version 20241229)\n"));
    assert!(pcb.contains("\t(net 1 \"A\")\n"));
    assert!(pcb.contains("(start 0.000000 0.000000)"));
    assert!(pcb.contains("(end 2.000000 1.000000)"));
    assert!(pcb.contains("(width 0.250000)"));
    assert!(pcb.contains("(at 0.500000 0.500000)"));
    assert!(pcb.contains("\t\t(locked yes)\n"));
    assert!(pcb.contains("(uuid \"00000000-0000-0000-0000-000000000001\")"));
    assert!(pcb.contains("(size 0.800000 0.800000)"));
    assert!(pcb.contains("(net 2 \"B\")"));
    assert!(pcb.ends_with(")"));
}

#[test]
fn fixture_writes_negative_coordinates_exactly() {
    let mut board = sample_board();
    board.tracks[0].segment = Segment::new(Point::new(-1_500_000, -7), Point::new(-999_999, 12_345_678));
    let (pcb, _) = write_fixture(&board);
    assert!(pcb.contains("(start -1.500000 -0.000007)"));
    assert!(pcb.contains("(end -0.999999 12.345678)"));
    let parsed = parse_board(&pcb, None).unwrap();
    assert_eq!(parsed.board.tracks[0].segment, board.tracks[0].segment);
}

#[test]
fn fixture_project_lists_each_class_in_shortest_millimetres() {
    let (_, pro) = write_fixture(&sample_board());
    assert!(pro.contains(
        "      { \"name\": \"Default\", \"clearance\": 0.18, \"track_width\": 0.25, \"via_diameter\": 0.6, \"via_drill\": 0.3 }"
    ));
    assert!(pro.contains("\"min_clearance\": 0.0"));
}

#[test]
fn fixture_uuids_count_up_across_items() {
    let (pcb, _) = write_fixture(&sample_board());
    for n in 1..=4 {
        let uuid = format!("00000000-0000-0000-0000-{n:012x}");
        assert!(pcb.contains(&uuid), "missing {uuid}");
    }
    assert!(!pcb.contains("00000000-0000-0000-0000-000000000005"));
}

const SMALL_BOARD: &str = r#"(kicad_pcb
  (version 20241229)
  (layers (0 "F.Cu" signal) (2 "B.Cu" signal))
  (net 0 "")
  (net 1 "GND")
  (net 2 "VCC")
  (net 1 "GROUND")
  (segment (start 0 0) (end 1.5 0) (width 0.2) (layer "F.Cu") (net 1) (locked yes))
  (segment (start 0 0) (end 1 0) (width 0.2) (layer "In1.Cu") (net 1))
  (via (at 1.5 0) (size 0.6) (drill 0.3) (layers "F.Cu" "B.Cu") (net 1))
  (via (at 2 0) (size 0.6) (drill 0.3) (layers "F.Cu" "In1.Cu") (net 1))
  (footprint "R" (at 10 20) (locked yes)
    (property "Reference" "R7" (at 0 0))
    (pad "1" smd circle (at 1 0) (size 0.5 0.5) (layers "F.Cu") (net 2 "VCC"))
    (pad "2" smd rect (at -1 0) (size 0.5 0.5) (layers "F.Cu") (net 2 "VCC"))
  )
  (footprint "X" (layer "F.Cu"))
  (zone (net 0) (name "Keep") (layers "F.Cu" "B.Cu")
    (keepout (tracks not_allowed) (vias allowed) (pads allowed) (copperpour allowed) (footprints allowed))
    (polygon (pts (xy 0 0) (xy 5 0) (xy 5 5) (xy 0 5))))
  (zone (net 1) (layer "F.Cu") (polygon (pts (xy 0 0) (xy 1 0) (xy 1 1))))
)"#;

#[test]
fn parses_every_supported_kind_of_item() {
    let parsed = parse_board(SMALL_BOARD, None).unwrap();
    let b = &parsed.board;
    assert_eq!(b.layers.len(), 2);
    assert_eq!(b.nets.len(), 2);
    let gnd = b.find_net(NetId(1)).unwrap();
    assert_eq!(b.nets[gnd].name, "GROUND", "a later net entry replaces an earlier one");
    assert_eq!(b.net_classes.len(), 1);
    assert_eq!(b.net_classes[0].name, "Default");
    assert_eq!(b.tracks.len(), 1);
    assert_eq!(b.tracks[0].segment, Segment::new(Point::new(0, 0), Point::new(1_500_000, 0)));
    assert_eq!(b.tracks[0].width_nm, 200_000);
    assert!(b.tracks[0].locked);
    assert_eq!(b.vias.len(), 1);
    assert_eq!(b.vias[0].position, Point::new(1_500_000, 0));
    assert_eq!(b.pads.len(), 1);
    let p = &b.pads[0];
    let PadShape::Circle(c) = &p.shape;
    assert_eq!(c.center, Point::new(11_000_000, 20_000_000));
    assert_eq!(c.radius_nm, 250_000);
    assert!(p.locked, "a pad takes its footprint's lock");
    assert_eq!(p.reference.as_deref(), Some("R7"));
    assert_eq!(p.number.as_deref(), Some("1"));
    assert_eq!(p.net, NetId(2));
    assert_eq!(b.rule_areas.len(), 1);
    assert_eq!(b.rule_areas[0].name, "Keep");
    assert_eq!(b.rule_areas[0].layers, vec![LayerId(0), LayerId(1)]);
    assert!(!b.rule_areas[0].keepout.tracks_allowed);
    assert!(b.rule_areas[0].keepout.vias_allowed);
    assert_eq!(b.rule_areas[0].outline.vertices.len(), 4);
    assert_eq!(
        parsed.warnings,
        vec![
            "skipped malformed or unsupported segment #1".to_string(),
            "skipped malformed or unsupported via #1".to_string(),
            "skipped unsupported or malformed pad #1".to_string(),
            "skipped footprint with missing/invalid position".to_string(),
        ]
    );
}

#[test]
fn rejects_a_root_that_is_not_a_board() {
    assert!(matches!(parse_board("(kicad_sch)", None), Err(ParseBoardError::NotAKicadPcb)));
}

#[test]
fn rejects_a_board_without_both_copper_layers() {
    assert!(matches!(
        parse_board("(kicad_pcb (layers (0 \"F.Cu\" signal)))", None),
        Err(ParseBoardError::MissingCopperLayers)
    ));
    assert!(matches!(parse_board("(kicad_pcb)", None), Err(ParseBoardError::MissingCopperLayers)));
}

#[test]
fn rejects_invalid_syntax() {
    assert!(matches!(parse_board("(kicad_pcb", None), Err(ParseBoardError::Syntax(_))));
}

#[test]
fn rejects_a_project_that_is_not_json() {
    let pcb = "(kicad_pcb (layers (0 \"F.Cu\" signal) (2 \"B.Cu\" signal)))";
    assert!(matches!(parse_board(pcb, Some("{ not json")), Err(ParseBoardError::ProjectJson(_))));
}

#[test]
fn project_classes_fill_missing_fields_with_defaults() {
    let pcb = "(kicad_pcb (layers (0 \"F.Cu\" signal) (2 \"B.Cu\" signal)))";
    let pro = r#"{"net_settings": {"classes": [{"name": "Power", "clearance": 0.5, "diff_pair_gap": 0.125}]}}"#;
    let parsed = parse_board(pcb, Some(pro)).unwrap();
    let b = &parsed.board;
    assert_eq!(b.net_classes.len(), 2);
    let power = b.find_net_class(&"Power".to_string()).unwrap();
    assert_eq!(b.net_classes[power].clearance_nm, 500_000);
    assert_eq!(b.net_classes[power].track_width_nm, 250_000);
    assert_eq!(b.net_classes[power].via_diameter_nm, 600_000);
    assert_eq!(b.net_classes[power].via_drill_nm, 300_000);
    assert_eq!(b.net_classes[power].diff_pair_gap_nm, Some(125_000));
    assert_eq!(b.net_classes[power].diff_pair_track_width_nm, None);
    assert!(b.find_net_class(&"Default".to_string()).is_some());
}

#[test]
fn fixture_reads_back_every_track_via_pad_and_net() {
    let mut board = sample_board();
    board.tracks.push(Track {
        id: TrackId(7),
        segment: Segment::new(Point::new(-1_250_000, 3_000_001), Point::new(-5, 42)),
        width_nm: 150_000,
        layer: LayerId(1),
        net: NetId(2),
        locked: true,
    });
    board.vias.push(Via {
        id: ViaId(9),
        position: Point::new(-700_000, 1),
        diameter_nm: 450_000,
        drill_nm: 200_000,
        from_layer: LayerId(0),
        to_layer: LayerId(1),
        net: NetId(2),
        locked: false,
    });
    board.pads.push(Pad {
        id: PadId(5),
        shape: PadShape::Circle(Circle::new(Point::new(-2_000_000, 999_999), 125_000)),
        layers: vec![LayerId(1)],
        net: NetId(1),
        locked: true,
        reference: None,
        number: None,
    });
    let (pcb_text, _) = write_fixture(&board);
    let parsed = parse_board(&pcb_text, None).expect("the fixture parses");
    assert!(parsed.warnings.is_empty(), "unexpected warnings: {:?}", parsed.warnings);
    let read = parsed.board;
    assert_eq!(read.tracks.len(), board.tracks.len());
    for (i, (got, want)) in read.tracks.iter().zip(board.tracks.iter()).enumerate() {
        assert_eq!(got.id, TrackId(i as u32));
        assert_eq!(got.segment, want.segment);
        assert_eq!(got.width_nm, want.width_nm);
        assert_eq!(got.layer, want.layer);
        assert_eq!(got.net, want.net);
        assert_eq!(got.locked, want.locked);
    }
    assert_eq!(read.vias.len(), board.vias.len());
    for (i, (got, want)) in read.vias.iter().zip(board.vias.iter()).enumerate() {
        assert_eq!(got.id, ViaId(i as u32));
        assert_eq!(got.position, want.position);
        assert_eq!(got.diameter_nm, want.diameter_nm);
        assert_eq!(got.drill_nm, want.drill_nm);
        assert_eq!(got.from_layer, LayerId(0));
        assert_eq!(got.to_layer, LayerId(1));
        assert_eq!(got.net, want.net);
        assert_eq!(got.locked, want.locked);
    }
    assert_eq!(read.pads.len(), board.pads.len());
    for (i, (got, want)) in read.pads.iter().zip(board.pads.iter()).enumerate() {
        assert_eq!(got.id, PadId(i as u32));
        assert_eq!(got.shape, want.shape);
        assert_eq!(got.layers, want.layers);
        assert_eq!(got.net, want.net);
        assert_eq!(got.locked, want.locked);
        assert_eq!(got.reference, None);
        assert_eq!(got.number, Some("1".to_string()));
    }
    assert_eq!(read.nets.len(), board.nets.len());
    for net in &board.nets {
        let found = read.nets.iter().find(|n| n.id == net.id).expect("net read back");
        assert_eq!(found.name, net.name);
    }
}

#[test]
fn reads_millimetres_written_with_an_exponent() {
    let pcb = "(kicad_pcb (layers (0 \"F.Cu\" signal) (31 \"B.Cu\" signal)) (net 0 \"\") (net 1 \"A\") \
               (segment (start 1e-3 -2.5E1) (end 1.5e+0 0) (width 2.5e-1) (layer \"F.Cu\") (net 1)))";
    let parsed = parse_board(pcb, None).unwrap();
    assert_eq!(parsed.board.tracks.len(), 1);
    let t = &parsed.board.tracks[0];
    assert_eq!(t.segment.a, Point::new(1_000, -25_000_000));
    assert_eq!(t.segment.b, Point::new(1_500_000, 0));
    assert_eq!(t.width_nm, 250_000);
}
