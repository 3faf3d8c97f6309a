use tessera::detail::router::route_connection;
use tessera::drc::clearance::check_clearance;
use tessera::geom::circle::Circle;
use tessera::geom::point::Point;
use tessera::geom::segment::Segment;
use tessera::model::board::Board;
use tessera::model::connection::{Connection, Endpoint};
use tessera::model::items::{
    Layer, LayerId, Net, NetClass, NetId, Pad, PadId, PadShape, Track, TrackId, Via, ViaId,
};

fn two_layer_board_with_class(clearance_nm: i64, track_width_nm: i64) -> Board {
    let mut board = Board::new();
    board.layers.push(Layer::copper(LayerId(0), "F.Cu"));
    board.layers.push(Layer::copper(LayerId(1), "B.Cu"));
    board.insert_net_class(NetClass {
        name: "Default".to_string(),
        clearance_nm,
        track_width_nm,
        via_diameter_nm: 600_000,
        via_drill_nm: 300_000,
        diff_pair_track_width_nm: None,
        diff_pair_gap_nm: None,
        diff_pair_via_gap_nm: None,
    });
    board
}

fn add_net(board: &mut Board, id: u32, name: &str) -> NetId {
    let net = NetId(id);
    board.insert_net(Net {
        id: net,
        name: name.to_string(),
        net_class: "Default".to_string(),
    });
    net
}

fn pad(id: u32, x: i64, y: i64, net: NetId) -> Pad {
    Pad {
        id: PadId(id),
        shape: PadShape::Circle(Circle::new(Point::new(x, y), 200_000)),
        layers: vec![LayerId(0)],
        net,
        locked: false,
        reference: None,
        number: None,
    }
}

fn endpoint(x: i64, y: i64) -> Endpoint {
    Endpoint {
        position: Point::new(x, y),
        layers: vec![LayerId(0)],
    }
}

#[test]
fn routes_straight_line_with_no_obstacles() {
    let mut board = two_layer_board_with_class(200_000, 250_000);
    let net_a = add_net(&mut board, 1, "A");
    board.pads.push(pad(0, 0, 0, net_a));
    board.pads.push(pad(1, 2_000_000, 0, net_a));
    let connection = Connection {
        net: net_a,
        from: endpoint(0, 0),
        to: endpoint(2_000_000, 0),
    };
    let routed = route_connection(&board, &connection, &[]).expect("should find a path");
    assert!(!routed.segments.is_empty());
    assert!(routed.vias.is_empty(), "no layer change needed here");
}

#[test]
fn a_straight_route_starts_and_ends_at_the_pads() {
    let mut board = two_layer_board_with_class(200_000, 250_000);
    let net_a = add_net(&mut board, 1, "A");
    board.pads.push(pad(0, 0, 0, net_a));
    board.pads.push(pad(1, 2_000_000, 0, net_a));
    let connection = Connection {
        net: net_a,
        from: endpoint(0, 0),
        to: endpoint(2_000_000, 0),
    };
    let routed = route_connection(&board, &connection, &[]).expect("should find a path");
    assert_eq!(routed.segments.len(), 1);
    assert_eq!(routed.segments[0].0, Segment::new(Point::new(0, 0), Point::new(2_000_000, 0)));
    assert_eq!(routed.segments[0].1, LayerId(0));
}

#[test]
fn a_net_without_a_class_is_not_routed() {
    let mut board = two_layer_board_with_class(200_000, 250_000);
    board.pads.push(pad(0, 0, 0, NetId(5)));
    board.pads.push(pad(1, 2_000_000, 0, NetId(5)));
    let connection = Connection {
        net: NetId(5),
        from: endpoint(0, 0),
        to: endpoint(2_000_000, 0),
    };
    assert!(route_connection(&board, &connection, &[]).is_none());
}

fn obstacle_board() -> (Board, NetId) {
    let mut board = two_layer_board_with_class(200_000, 250_000);
    let net_a = add_net(&mut board, 1, "A");
    let net_b = add_net(&mut board, 2, "B");
    board.pads.push(pad(0, 0, 0, net_a));
    board.pads.push(pad(1, 3_000_000, 0, net_a));
    board.tracks.push(Track {
        id: TrackId(0),
        segment: Segment::new(Point::new(1_500_000, -1_500_000), Point::new(1_500_000, 1_500_000)),
        width_nm: 250_000,
        layer: LayerId(0),
        net: net_b,
        locked: false,
    });
    (board, net_a)
}

#[test]
fn detours_around_obstacle_and_result_is_clearance_clean() {
    let (board, net_a) = obstacle_board();
    let connection = Connection {
        net: net_a,
        from: endpoint(0, 0),
        to: endpoint(3_000_000, 0),
    };
    let routed = route_connection(&board, &connection, &[]).expect("should route around the obstacle");
    assert!(!routed.segments.is_empty());
    let (mut committed, _) = obstacle_board();
    for (i, (segment, layer)) in routed.segments.iter().enumerate() {
        committed.tracks.push(Track {
            id: TrackId(100 + u32::try_from(i).unwrap_or(u32::MAX)),
            segment: *segment,
            width_nm: 250_000,
            layer: *layer,
            net: net_a,
            locked: false,
        });
    }
    for (i, position) in routed.vias.iter().enumerate() {
        committed.vias.push(Via {
            id: ViaId(100 + u32::try_from(i).unwrap_or(u32::MAX)),
            position: *position,
            diameter_nm: 600_000,
            drill_nm: 300_000,
            from_layer: LayerId(0),
            to_layer: LayerId(1),
            net: net_a,
            locked: false,
        });
    }
    let violations = check_clearance(&committed);
    assert!(violations.is_empty(), "routed path is not clearance-clean: {violations:?}");
}

#[test]
fn an_open_route_takes_a_least_cost_octilinear_path() {
    let mut board = two_layer_board_with_class(200_000, 250_000);
    let net_a = add_net(&mut board, 1, "A");
    board.pads.push(pad(0, 0, 0, net_a));
    board.pads.push(pad(1, 3_000_000, 1_000_000, net_a));
    let connection = Connection {
        net: net_a,
        from: endpoint(0, 0),
        to: endpoint(3_000_000, 1_000_000),
    };
    let routed = route_connection(&board, &connection, &[]).expect("should find a path");
    assert!(routed.vias.is_empty(), "a via costs more than any detour here");
    // A least-cost path moves diagonally exactly as far as the smaller
    // displacement and straight for the rest: 1 mm diagonal, 2 mm straight.
    let mut diagonal = 0i64;
    let mut straight = 0i64;
    for (segment, layer) in &routed.segments {
        assert_eq!(*layer, LayerId(0));
        let dx = (segment.b.x - segment.a.x).abs();
        let dy = (segment.b.y - segment.a.y).abs();
        diagonal += dx.min(dy);
        straight += dx.max(dy) - dx.min(dy);
    }
    assert_eq!(diagonal, 1_000_000);
    assert_eq!(straight, 2_000_000);
}
