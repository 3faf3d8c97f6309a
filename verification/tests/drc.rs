use tessera::drc::clearance::check_clearance;
use tessera::drc::custom_rules::{check_track_width, Bound};
use tessera::drc::violation::ItemRef;
use tessera::geom::circle::Circle;
use tessera::geom::point::Point;
use tessera::geom::polygon::Polygon;
use tessera::geom::segment::Segment;
use tessera::kicad::dru::{Constraint, DesignRules, Rule};
use tessera::model::board::Board;
use tessera::model::items::{
    KeepoutFlags, Layer, LayerId, Net, NetClass, NetId, Pad, PadId, PadShape, RuleArea, RuleAreaId, Track,
    TrackId, Via, ViaId,
};

fn two_net_board() -> (Board, NetId, NetId) {
    let mut board = Board::new();
    board.layers.push(Layer::copper(LayerId(0), "F.Cu"));
    let mut class = NetClass::default_placeholder();
    class.clearance_nm = 200_000;
    board.insert_net_class(class);
    let net_a = NetId(1);
    let net_b = NetId(2);
    board.insert_net(Net {
        id: net_a,
        name: "A".to_string(),
        net_class: "Default".to_string(),
    });
    board.insert_net(Net {
        id: net_b,
        name: "B".to_string(),
        net_class: "Default".to_string(),
    });
    (board, net_a, net_b)
}

#[test]
fn same_net_tracks_never_violate() {
    let (mut board, net_a, _) = two_net_board();
    board.tracks.push(Track {
        id: TrackId(0),
        segment: Segment::new(Point::new(0, 0), Point::new(1_000_000, 0)),
        width_nm: 250_000,
        layer: LayerId(0),
        net: net_a,
        locked: false,
    });
    board.tracks.push(Track {
        id: TrackId(1),
        segment: Segment::new(Point::new(0, 0), Point::new(1_000_000, 0)),
        width_nm: 250_000,
        layer: LayerId(0),
        net: net_a,
        locked: false,
    });
    assert!(check_clearance(&board).is_empty());
}

#[test]
fn different_net_tracks_too_close_violate() {
    let (mut board, net_a, net_b) = two_net_board();
    board.tracks.push(Track {
        id: TrackId(0),
        segment: Segment::new(Point::new(0, 0), Point::new(1_000_000, 0)),
        width_nm: 200_000,
        layer: LayerId(0),
        net: net_a,
        locked: false,
    });
    board.tracks.push(Track {
        id: TrackId(1),
        segment: Segment::new(Point::new(0, 300_000), Point::new(1_000_000, 300_000)),
        width_nm: 200_000,
        layer: LayerId(0),
        net: net_b,
        locked: false,
    });
    let violations = check_clearance(&board);
    assert_eq!(violations.len(), 1);
    assert_eq!(violations[0].required_nm, 200_000);
    assert_eq!(violations[0].a, ItemRef::Track(TrackId(0)));
    assert_eq!(violations[0].b, ItemRef::Track(TrackId(1)));
}

#[test]
fn different_net_tracks_far_enough_do_not_violate() {
    let (mut board, net_a, net_b) = two_net_board();
    board.tracks.push(Track {
        id: TrackId(0),
        segment: Segment::new(Point::new(0, 0), Point::new(1_000_000, 0)),
        width_nm: 200_000,
        layer: LayerId(0),
        net: net_a,
        locked: false,
    });
    board.tracks.push(Track {
        id: TrackId(1),
        segment: Segment::new(Point::new(0, 400_000), Point::new(1_000_000, 400_000)),
        width_nm: 200_000,
        layer: LayerId(0),
        net: net_b,
        locked: false,
    });
    assert!(check_clearance(&board).is_empty());
}

#[test]
fn tracks_on_different_layers_never_violate() {
    let (mut board, net_a, net_b) = two_net_board();
    board.layers.push(Layer::copper(LayerId(1), "B.Cu"));
    board.tracks.push(Track {
        id: TrackId(0),
        segment: Segment::new(Point::new(0, 0), Point::new(1_000_000, 0)),
        width_nm: 200_000,
        layer: LayerId(0),
        net: net_a,
        locked: false,
    });
    board.tracks.push(Track {
        id: TrackId(1),
        segment: Segment::new(Point::new(0, 0), Point::new(1_000_000, 0)),
        width_nm: 200_000,
        layer: LayerId(1),
        net: net_b,
        locked: false,
    });
    assert!(check_clearance(&board).is_empty());
}

#[test]
fn vias_too_close_violate() {
    let (mut board, net_a, net_b) = two_net_board();
    board.vias.push(Via {
        id: ViaId(0),
        position: Point::new(0, 0),
        diameter_nm: 600_000,
        drill_nm: 300_000,
        from_layer: LayerId(0),
        to_layer: LayerId(0),
        net: net_a,
        locked: false,
    });
    board.vias.push(Via {
        id: ViaId(1),
        position: Point::new(700_000, 0),
        diameter_nm: 600_000,
        drill_nm: 300_000,
        from_layer: LayerId(0),
        to_layer: LayerId(0),
        net: net_b,
        locked: false,
    });
    assert_eq!(check_clearance(&board).len(), 1);
}

#[test]
fn pad_and_track_different_nets_too_close_violate() {
    let (mut board, net_a, net_b) = two_net_board();
    board.pads.push(Pad {
        id: PadId(0),
        shape: PadShape::Circle(Circle::new(Point::new(0, 0), 200_000)),
        layers: vec![LayerId(0)],
        net: net_a,
        locked: false,
        reference: None,
        number: None,
    });
    board.tracks.push(Track {
        id: TrackId(0),
        segment: Segment::new(Point::new(300_000, 0), Point::new(1_000_000, 0)),
        width_nm: 100_000,
        layer: LayerId(0),
        net: net_b,
        locked: false,
    });
    assert_eq!(check_clearance(&board).len(), 1);
}

#[test]
fn net_without_a_class_is_not_checked() {
    let (mut board, net_a, _) = two_net_board();
    board.tracks.push(Track {
        id: TrackId(0),
        segment: Segment::new(Point::new(0, 0), Point::new(1_000_000, 0)),
        width_nm: 200_000,
        layer: LayerId(0),
        net: net_a,
        locked: false,
    });
    board.tracks.push(Track {
        id: TrackId(1),
        segment: Segment::new(Point::new(0, 0), Point::new(1_000_000, 0)),
        width_nm: 200_000,
        layer: LayerId(0),
        net: NetId(42),
        locked: false,
    });
    assert!(check_clearance(&board).is_empty());
}

fn board_with_one_track(width_nm: i64) -> (Board, NetId) {
    let mut board = Board::new();
    board.layers.push(Layer::copper(LayerId(0), "F.Cu"));
    board.layers.push(Layer::copper(LayerId(1), "B.Cu"));
    board.insert_net_class(NetClass::default_placeholder());
    let net = NetId(1);
    board.insert_net(Net {
        id: net,
        name: "SIG".to_string(),
        net_class: "Default".to_string(),
    });
    board.pads.push(Pad {
        id: PadId(0),
        shape: PadShape::Circle(Circle::new(Point::new(0, 0), 200_000)),
        layers: vec![LayerId(0)],
        net,
        locked: false,
        reference: Some("IC1".to_string()),
        number: Some("1".to_string()),
    });
    board.pads.push(Pad {
        id: PadId(1),
        shape: PadShape::Circle(Circle::new(Point::new(2_000_000, 0), 200_000)),
        layers: vec![LayerId(0)],
        net,
        locked: false,
        reference: Some("IC2".to_string()),
        number: Some("1".to_string()),
    });
    board.tracks.push(Track {
        id: TrackId(0),
        segment: Segment::new(Point::new(0, 0), Point::new(2_000_000, 0)),
        width_nm,
        layer: LayerId(0),
        net,
        locked: false,
    });
    (board, net)
}

fn rules_with_track_width(min_nm: Option<i64>, max_nm: Option<i64>, condition: &str) -> DesignRules {
    DesignRules {
        version: Some(1),
        rules: vec![Rule {
            name: "test_rule".to_string(),
            layer: Vec::new(),
            constraints: vec![Constraint {
                kind: "track_width".to_string(),
                min_nm,
                max_nm,
                opt_nm: None,
                args: Vec::new(),
            }],
            condition: Some(condition.to_string()),
        }],
    }
}

#[test]
fn flags_a_track_narrower_than_the_resolved_minimum() {
    let (board, _) = board_with_one_track(100_000);
    let rules = rules_with_track_width(Some(200_000), None, "A.NetClass == 'Default'");
    let violations = check_track_width(&board, &rules);
    assert_eq!(violations.len(), 1);
    assert_eq!(violations[0].bound, Bound::Min);
    assert_eq!(violations[0].required_nm, 200_000);
    assert_eq!(violations[0].actual_nm, 100_000);
    assert_eq!(violations[0].rule_name, "test_rule");
}

#[test]
fn flags_a_track_wider_than_the_resolved_maximum() {
    let (board, _) = board_with_one_track(400_000);
    let rules = rules_with_track_width(None, Some(300_000), "A.NetClass == 'Default'");
    let violations = check_track_width(&board, &rules);
    assert_eq!(violations.len(), 1);
    assert_eq!(violations[0].bound, Bound::Max);
    assert_eq!(violations[0].required_nm, 300_000);
    assert_eq!(violations[0].actual_nm, 400_000);
    assert_eq!(violations[0].constraint_kind, "track_width");
}

#[test]
fn does_not_flag_a_track_within_bounds() {
    let (board, _) = board_with_one_track(250_000);
    let rules = rules_with_track_width(Some(200_000), Some(300_000), "A.NetClass == 'Default'");
    assert!(check_track_width(&board, &rules).is_empty());
}

#[test]
fn condition_gates_which_tracks_are_checked() {
    let (board, _) = board_with_one_track(100_000);
    let rules = rules_with_track_width(Some(200_000), None, "A.NetClass == 'SomeOtherClass'");
    assert!(check_track_width(&board, &rules).is_empty());
}

#[test]
fn from_to_condition_matches_via_the_connections_terminal_pads() {
    let (board, _) = board_with_one_track(100_000);
    let rules = rules_with_track_width(Some(200_000), None, "A.fromTo('IC1-*','IC2-*')");
    let violations = check_track_width(&board, &rules);
    assert_eq!(violations.len(), 1, "fromTo should match this track's own connection");
}

#[test]
fn from_to_condition_does_not_match_a_different_connection() {
    let (board, _) = board_with_one_track(100_000);
    let rules = rules_with_track_width(Some(200_000), None, "A.fromTo('ICX-*','ICY-*')");
    assert!(check_track_width(&board, &rules).is_empty());
}

#[test]
fn intersects_area_condition_uses_the_tracks_own_geometry() {
    let (mut board, _) = board_with_one_track(100_000);
    board.rule_areas.push(RuleArea {
        id: RuleAreaId(0),
        name: "Zone1".to_string(),
        outline: Polygon::new(vec![
            Point::new(-1_000_000, -1_000_000),
            Point::new(1_000_000, -1_000_000),
            Point::new(1_000_000, 1_000_000),
            Point::new(-1_000_000, 1_000_000),
        ]),
        layers: vec![LayerId(0)],
        keepout: KeepoutFlags {
            tracks_allowed: true,
            vias_allowed: true,
            pads_allowed: true,
            copper_pour_allowed: true,
            footprints_allowed: true,
        },
    });
    let rules = rules_with_track_width(Some(200_000), None, "A.intersectsArea('Zone1')");
    let violations = check_track_width(&board, &rules);
    assert_eq!(violations.len(), 1, "the track crosses through Zone1");
}

#[test]
fn diff_pair_condition_finds_the_real_companion_net() {
    let mut board = Board::new();
    board.layers.push(Layer::copper(LayerId(0), "F.Cu"));
    board.layers.push(Layer::copper(LayerId(1), "B.Cu"));
    board.insert_net_class(NetClass::default_placeholder());
    let net_p = NetId(1);
    let net_n = NetId(2);
    board.insert_net(Net {
        id: net_p,
        name: "SIG_P".to_string(),
        net_class: "Default".to_string(),
    });
    board.insert_net(Net {
        id: net_n,
        name: "SIG_N".to_string(),
        net_class: "Default".to_string(),
    });
    board.tracks.push(Track {
        id: TrackId(0),
        segment: Segment::new(Point::new(0, 0), Point::new(2_000_000, 0)),
        width_nm: 100_000,
        layer: LayerId(0),
        net: net_p,
        locked: false,
    });
    let rules = rules_with_track_width(Some(200_000), None, "A.inDiffPair('SIG')");
    let violations = check_track_width(&board, &rules);
    assert_eq!(violations.len(), 1);
}

#[test]
fn the_last_matching_rule_wins() {
    let (board, _) = board_with_one_track(100_000);
    let mut rules = rules_with_track_width(Some(200_000), None, "A.NetClass == 'Default'");
    rules.rules.push(Rule {
        name: "later_rule".to_string(),
        layer: Vec::new(),
        constraints: vec![Constraint {
            kind: "track_width".to_string(),
            min_nm: Some(50_000),
            max_nm: None,
            opt_nm: None,
            args: Vec::new(),
        }],
        condition: Some("A.NetClass == 'Default'".to_string()),
    });
    assert!(check_track_width(&board, &rules).is_empty());
}
