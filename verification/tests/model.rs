use tessera::geom::circle::Circle;
use tessera::geom::point::Point;
use tessera::geom::polygon::Polygon;
use tessera::geom::segment::Segment;
use tessera::model::board::Board;
use tessera::model::items::{
    KeepoutFlags, Layer, LayerId, Net, NetClass, NetId, Pad, PadId, PadShape, RuleArea, RuleAreaId, Track,
    TrackId, Via, ViaId,
};

fn sample_board() -> Board {
    let mut board = Board::new();
    board.layers.push(Layer::copper(LayerId(0), "F.Cu"));
    board.layers.push(Layer::copper(LayerId(1), "B.Cu"));
    board.insert_net_class(NetClass::default_placeholder());
    let net_id = NetId(1);
    board.insert_net(Net {
        id: net_id,
        name: "GND".to_string(),
        net_class: "Default".to_string(),
    });
    board.tracks.push(Track {
        id: TrackId(0),
        segment: Segment::new(Point::new(0, 0), Point::new(1_000_000, 0)),
        width_nm: 250_000,
        layer: LayerId(0),
        net: net_id,
        locked: false,
    });
    board.pads.push(Pad {
        id: PadId(0),
        shape: PadShape::Circle(Circle::new(Point::new(0, 0), 400_000)),
        layers: vec![LayerId(0)],
        net: net_id,
        locked: false,
        reference: None,
        number: None,
    });
    board
}

#[test]
fn net_class_lookup_resolves() {
    let board = sample_board();
    let class = board.net_class_for(NetId(1)).expect("GND has a class");
    assert_eq!(class.name, "Default");
}

#[test]
fn net_class_lookup_missing_net_is_none() {
    let board = sample_board();
    assert!(board.net_class_for(NetId(999)).is_none());
}

#[test]
fn net_class_lookup_missing_class_is_none() {
    let mut board = sample_board();
    board.insert_net(Net {
        id: NetId(2),
        name: "VCC".to_string(),
        net_class: "Power".to_string(),
    });
    assert!(board.net_class_for(NetId(2)).is_none());
}

#[test]
fn inserting_a_net_again_replaces_it() {
    let mut board = sample_board();
    board.insert_net(Net {
        id: NetId(1),
        name: "GROUND".to_string(),
        net_class: "Default".to_string(),
    });
    assert_eq!(board.nets.len(), 1);
    let i = board.find_net(NetId(1)).unwrap();
    assert_eq!(board.nets[i].name, "GROUND");
}

#[test]
fn inserting_a_class_again_replaces_it() {
    let mut board = sample_board();
    let mut class = NetClass::default_placeholder();
    class.clearance_nm = 123_000;
    board.insert_net_class(class);
    assert_eq!(board.net_classes.len(), 1);
    assert_eq!(board.net_class_for(NetId(1)).unwrap().clearance_nm, 123_000);
}

#[test]
fn resolved_clearance_is_the_larger_class_clearance() {
    let mut board = sample_board();
    let mut power = NetClass::default_placeholder();
    power.name = "Power".to_string();
    power.clearance_nm = 500_000;
    board.insert_net_class(power);
    board.insert_net(Net {
        id: NetId(2),
        name: "VCC".to_string(),
        net_class: "Power".to_string(),
    });
    assert_eq!(board.resolved_clearance_nm(NetId(1), NetId(2)), Some(500_000));
    assert_eq!(board.resolved_clearance_nm(NetId(2), NetId(1)), Some(500_000));
    assert_eq!(board.resolved_clearance_nm(NetId(1), NetId(77)), None);
}

fn board_with_net_classes() -> Board {
    let mut board = Board::new();
    board.insert_net_class(NetClass::default_placeholder());
    board
}

fn pad(id: u32, net: NetId, x: i64, y: i64) -> Pad {
    Pad {
        id: PadId(id),
        shape: PadShape::Circle(Circle::new(Point::new(x, y), 200_000)),
        layers: vec![LayerId(0)],
        net,
        locked: false,
        reference: None,
        number: None,
    }
}

#[test]
fn two_pin_net_with_no_track_is_unrouted() {
    let mut board = board_with_net_classes();
    let net = NetId(1);
    board.pads.push(pad(0, net, 0, 0));
    board.pads.push(pad(1, net, 1_000_000, 0));
    let report = board.find_unrouted_connections();
    assert_eq!(report.connections.len(), 1);
    assert_eq!(report.connections[0].net, net);
    assert!(report.skipped.is_empty());
}

#[test]
fn net_with_existing_track_is_not_reported() {
    let mut board = board_with_net_classes();
    let net = NetId(1);
    board.pads.push(pad(0, net, 0, 0));
    board.pads.push(pad(1, net, 1_000_000, 0));
    board.tracks.push(Track {
        id: TrackId(0),
        segment: Segment::new(Point::new(0, 0), Point::new(1_000_000, 0)),
        width_nm: 250_000,
        layer: LayerId(0),
        net,
        locked: false,
    });
    let report = board.find_unrouted_connections();
    assert!(report.connections.is_empty());
}

#[test]
fn net_with_existing_via_is_not_reported() {
    let mut board = board_with_net_classes();
    let net = NetId(1);
    board.pads.push(pad(0, net, 0, 0));
    board.pads.push(pad(1, net, 1_000_000, 0));
    board.vias.push(Via {
        id: ViaId(0),
        position: Point::new(500_000, 0),
        diameter_nm: 600_000,
        drill_nm: 300_000,
        from_layer: LayerId(0),
        to_layer: LayerId(1),
        net,
        locked: false,
    });
    let report = board.find_unrouted_connections();
    assert!(report.connections.is_empty());
    assert!(report.multi_pin_nets.is_empty());
}

#[test]
fn single_pad_net_is_ignored() {
    let mut board = board_with_net_classes();
    board.pads.push(pad(0, NetId(1), 0, 0));
    let report = board.find_unrouted_connections();
    assert!(report.connections.is_empty());
    assert!(report.skipped.is_empty());
}

#[test]
fn multi_pin_net_is_reported_with_raw_endpoints_not_dropped_silently() {
    let mut board = board_with_net_classes();
    let net = NetId(1);
    board.pads.push(pad(0, net, 0, 0));
    board.pads.push(pad(1, net, 1_000_000, 0));
    board.pads.push(pad(2, net, 2_000_000, 0));
    let report = board.find_unrouted_connections();
    assert!(report.connections.is_empty());
    assert_eq!(report.multi_pin_nets.len(), 1);
    assert_eq!(report.multi_pin_nets[0].0, net);
    assert_eq!(report.multi_pin_nets[0].1.len(), 3);
    assert!(report.skipped.is_empty());
}

#[test]
fn connections_come_in_order_of_first_pad() {
    let mut board = board_with_net_classes();
    board.pads.push(pad(0, NetId(7), 0, 0));
    board.pads.push(pad(1, NetId(3), 0, 1_000_000));
    board.pads.push(pad(2, NetId(7), 1_000_000, 0));
    board.pads.push(pad(3, NetId(3), 1_000_000, 1_000_000));
    let report = board.find_unrouted_connections();
    assert_eq!(report.connections.len(), 2);
    assert_eq!(report.connections[0].net, NetId(7));
    assert_eq!(report.connections[0].from.position, Point::new(0, 0));
    assert_eq!(report.connections[0].to.position, Point::new(1_000_000, 0));
    assert_eq!(report.connections[1].net, NetId(3));
}

#[test]
fn two_pin_endpoints_are_found_by_net() {
    let mut board = board_with_net_classes();
    board.pads.push(pad(0, NetId(1), 0, 0));
    board.pads.push(pad(1, NetId(2), 5, 5));
    board.pads.push(pad(2, NetId(1), 10, 0));
    let ends = board.two_pin_net_endpoints(NetId(1)).expect("two pads");
    assert_eq!(ends[0].id, PadId(0));
    assert_eq!(ends[1].id, PadId(2));
    assert!(board.two_pin_net_endpoints(NetId(2)).is_none());
}

fn sample_rule_area() -> RuleArea {
    RuleArea {
        id: RuleAreaId(0),
        name: "BuckStage".to_string(),
        outline: Polygon::new(vec![
            Point::new(0, 0),
            Point::new(10_000_000, 0),
            Point::new(10_000_000, 10_000_000),
            Point::new(0, 10_000_000),
        ]),
        layers: vec![LayerId(0), LayerId(1)],
        keepout: KeepoutFlags {
            tracks_allowed: true,
            vias_allowed: true,
            pads_allowed: true,
            copper_pour_allowed: true,
            footprints_allowed: true,
        },
    }
}

#[test]
fn outline_contains_a_point_solidly_inside() {
    let area = sample_rule_area();
    assert!(area
        .outline
        .contains_point(Point::new(5_000_000, 5_000_000)));
}
