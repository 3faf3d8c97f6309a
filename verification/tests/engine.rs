use tessera::drc::clearance::check_clearance;
use tessera::engine::route::{obstruction_from_board, route_board, GLOBAL_CELL_NM};
use tessera::geom::circle::Circle;
use tessera::geom::point::Point;
use tessera::geom::segment::Segment;
use tessera::global::pathfinder::GlobalGrid;
use tessera::model::board::Board;
use tessera::model::items::{
    Layer, LayerId, Net, NetClass, NetId, Pad, PadId, PadShape, Track, TrackId,
};

fn class(clearance_nm: i64, track_width_nm: i64, via_diameter_nm: i64, via_drill_nm: i64) -> NetClass {
    NetClass {
        name: "Default".to_string(),
        clearance_nm,
        track_width_nm,
        via_diameter_nm,
        via_drill_nm,
        diff_pair_track_width_nm: None,
        diff_pair_gap_nm: None,
        diff_pair_via_gap_nm: None,
    }
}

fn two_layers(board: &mut Board) {
    board.layers.push(Layer::copper(LayerId(0), "F.Cu"));
    board.layers.push(Layer::copper(LayerId(1), "B.Cu"));
}

fn add_net(board: &mut Board, id: u32, name: &str) -> NetId {
    let net = NetId(id);
    board.insert_net(Net {
        id: net,
        name: name.to_string(),
        net_class: "Default".to_string(),
    });
    net
}

fn pad(id: u32, x: i64, y: i64, radius: i64, net: NetId) -> Pad {
    Pad {
        id: PadId(id),
        shape: PadShape::Circle(Circle::new(Point::new(x, y), radius)),
        layers: vec![LayerId(0)],
        net,
        locked: false,
        reference: None,
        number: None,
    }
}

#[test]
fn foreign_copper_obstructs_a_cell_but_an_active_nets_own_copper_does_not() {
    let mut board = Board::new();
    two_layers(&mut board);
    board.insert_net_class(class(150_000, 200_000, 500_000, 250_000));
    let blocker_net = add_net(&mut board, 1, "BLOCKER");
    board.tracks.push(Track {
        id: TrackId(0),
        segment: Segment::new(Point::new(-1_000_000, 0), Point::new(1_000_000, 0)),
        width_nm: 2_000_000,
        layer: LayerId(0),
        net: blocker_net,
        locked: true,
    });
    let active_net = add_net(&mut board, 2, "ACTIVE");
    board.pads.push(Pad {
        id: PadId(0),
        shape: PadShape::Circle(Circle::new(Point::new(3_000_000, 3_000_000), 500_000)),
        layers: vec![LayerId(0)],
        net: active_net,
        locked: false,
        reference: None,
        number: None,
    });
    let grid = GlobalGrid {
        origin: Point::new(-2_000_000, -2_000_000),
        cell_size_nm: GLOBAL_CELL_NM,
        width: 8,
        height: 8,
        layer_capacity: vec![4, 4],
        obstruction: Vec::new(),
    };
    let layers = vec![LayerId(0), LayerId(1)];
    let active_nets = vec![active_net];
    let obstruction = obstruction_from_board(&board, &grid, &layers, &active_nets);
    let blocker_cell = grid.cell_of(Point::new(0, 0), 0);
    let blocker_idx = grid.cell_index(blocker_cell).unwrap();
    assert_eq!(
        obstruction[blocker_idx], 4,
        "foreign locked copper should fully consume this cell's capacity"
    );
    let active_cell = grid.cell_of(Point::new(3_000_000, 3_000_000), 0);
    let active_idx = grid.cell_index(active_cell).unwrap();
    assert_eq!(
        obstruction[active_idx], 0,
        "an active net's own copper must not obstruct its own cell"
    );
    let other_layer = grid.cell_index(grid.cell_of(Point::new(0, 0), 1)).unwrap();
    assert_eq!(obstruction[other_layer], 0, "the blocker is on F.Cu only");
    assert_eq!(obstruction.len(), 8 * 8 * 2);
}

fn trivial_two_net_board() -> Board {
    let mut board = Board::new();
    two_layers(&mut board);
    board.insert_net_class(class(200_000, 250_000, 600_000, 300_000));
    for (i, (x_from, x_to)) in [(0, 2_000_000), (0, 2_000_000)].into_iter().enumerate() {
        let net = NetId(u32::try_from(i).unwrap() + 1);
        let y = i64::try_from(i).unwrap() * 5_000_000;
        board.insert_net(Net {
            id: net,
            name: format!("NET{i}"),
            net_class: "Default".to_string(),
        });
        board.pads.push(pad(u32::try_from(i * 2).unwrap(), x_from, y, 200_000, net));
        board.pads.push(pad(u32::try_from(i * 2 + 1).unwrap(), x_to, y, 200_000, net));
    }
    board
}

#[test]
fn routes_all_unrouted_nets_and_result_is_clearance_clean() {
    let mut board = trivial_two_net_board();
    let report = route_board(&mut board);
    assert_eq!(report.routed, 2, "both nets should route: {report:?}");
    assert!(report.failed.is_empty(), "unexpected failures: {report:?}");
    assert!(report.skipped.is_empty());
    assert!(!board.tracks.is_empty());
    let after = board.find_unrouted_connections();
    assert!(after.connections.is_empty(), "routed nets should no longer be reported as unrouted");
    let violations = check_clearance(&board);
    assert!(violations.is_empty(), "routed board is not clearance-clean: {violations:?}");
}

#[test]
fn new_copper_gets_fresh_unlocked_ids_after_the_existing_ones() {
    let mut board = trivial_two_net_board();
    board.tracks.push(Track {
        id: TrackId(41),
        segment: Segment::new(Point::new(0, 20_000_000), Point::new(1_000_000, 20_000_000)),
        width_nm: 250_000,
        layer: LayerId(1),
        net: NetId(9),
        locked: true,
    });
    let report = route_board(&mut board);
    assert_eq!(report.routed, 2);
    assert_eq!(board.tracks[0].id, TrackId(41));
    assert!(board.tracks[0].locked);
    for (k, t) in board.tracks.iter().enumerate().skip(1) {
        assert_eq!(t.id, TrackId(41 + u32::try_from(k).unwrap()));
        assert!(!t.locked);
        assert_eq!(t.width_nm, 250_000);
    }
}

#[test]
fn a_board_with_nothing_to_route_is_left_alone() {
    let mut board = Board::new();
    two_layers(&mut board);
    board.insert_net_class(class(200_000, 250_000, 600_000, 300_000));
    let net = add_net(&mut board, 1, "A");
    board.pads.push(pad(0, 0, 0, 200_000, net));
    let report = route_board(&mut board);
    assert_eq!(report.routed, 0);
    assert!(report.failed.is_empty());
    assert!(board.tracks.is_empty());
    assert!(board.vias.is_empty());
}

#[test]
fn three_pin_net_routes_via_steiner_decomposition() {
    let mut board = Board::new();
    two_layers(&mut board);
    board.insert_net_class(class(200_000, 250_000, 600_000, 300_000));
    let net = add_net(&mut board, 1, "NET1");
    for (i, (x, y)) in [(0, 0), (3_000_000, 0), (1_500_000, 2_500_000)].into_iter().enumerate() {
        board.pads.push(pad(u32::try_from(i).unwrap(), x, y, 200_000, net));
    }
    let before = board.find_unrouted_connections();
    assert_eq!(before.multi_pin_nets.len(), 1, "should be seen as multi-pin");
    assert!(before.connections.is_empty());
    let report = route_board(&mut board);
    assert_eq!(report.routed, 1, "the 3-pin net should fully route: {report:?}");
    assert!(report.failed.is_empty());
    assert!(!board.tracks.is_empty(), "expected at least some track segments from routing 2 MST edges");
    let after = board.find_unrouted_connections();
    assert!(
        after.multi_pin_nets.is_empty() && after.connections.is_empty(),
        "net should no longer be reported as unrouted"
    );
    let violations = check_clearance(&board);
    assert!(violations.is_empty(), "routed multi-pin net is not clearance-clean: {violations:?}");
}

#[test]
fn several_nets_crossing_the_same_region_all_route_and_stay_clean() {
    let mut board = Board::new();
    two_layers(&mut board);
    board.insert_net_class(class(150_000, 200_000, 500_000, 250_000));
    for i in 0..5i64 {
        let net = NetId(u32::try_from(i).unwrap() + 1);
        let y = i * 800_000;
        board.insert_net(Net {
            id: net,
            name: format!("NET{i}"),
            net_class: "Default".to_string(),
        });
        board.pads.push(pad(u32::try_from(i * 2).unwrap(), 0, y, 150_000, net));
        board.pads.push(pad(u32::try_from(i * 2 + 1).unwrap(), 4_000_000, y, 150_000, net));
    }
    let report = route_board(&mut board);
    assert_eq!(report.routed, 5, "all five nets should route: {report:?}");
    assert!(report.failed.is_empty());
    let violations = check_clearance(&board);
    assert!(violations.is_empty(), "globally-negotiated routing is not clearance-clean: {violations:?}");
}

#[test]
fn routes_around_a_pre_existing_locked_wall_and_stays_clean() {
    let mut board = Board::new();
    two_layers(&mut board);
    board.insert_net_class(class(150_000, 200_000, 500_000, 250_000));
    let wall_net = add_net(&mut board, 1, "WALL");
    board.tracks.push(Track {
        id: TrackId(0),
        segment: Segment::new(Point::new(3_000_000, -3_000_000), Point::new(3_000_000, 3_000_000)),
        width_nm: 300_000,
        layer: LayerId(0),
        net: wall_net,
        locked: true,
    });
    let target_net = add_net(&mut board, 2, "TARGET");
    board.pads.push(pad(0, 0, 0, 200_000, target_net));
    board.pads.push(pad(1, 6_000_000, 0, 200_000, target_net));
    let report = route_board(&mut board);
    assert_eq!(report.routed, 1, "the target net should route: {report:?}");
    assert!(report.failed.is_empty(), "unexpected failures: {report:?}");
    let violations = check_clearance(&board);
    assert!(violations.is_empty(), "routing around the locked wall is not clearance-clean: {violations:?}");
}

fn base_board() -> Board {
    let mut board = Board::new();
    two_layers(&mut board);
    board.insert_net_class(class(200_000, 250_000, 600_000, 300_000));
    let net_a = add_net(&mut board, 1, "A");
    board.pads.push(pad(0, 0, 0, 200_000, net_a));
    board.pads.push(pad(1, 5_000_000, 0, 200_000, net_a));
    board
}

fn add_locked_wall(board: &mut Board, id: u32, layer: LayerId) -> Track {
    let track = Track {
        id: TrackId(id),
        segment: Segment::new(Point::new(2_500_000, -5_000_000), Point::new(2_500_000, 5_000_000)),
        width_nm: 500_000,
        layer,
        net: NetId(999),
        locked: true,
    };
    board.tracks.push(track);
    track
}

#[test]
fn detour_exists_locked_wall_forces_layer_change_and_is_unmodified() {
    let mut board = base_board();
    let wall = add_locked_wall(&mut board, 0, LayerId(0));
    let report = route_board(&mut board);
    assert_eq!(report.routed, 1, "should route around via B.Cu: {report:?}");
    assert!(report.failed.is_empty());
    assert!(!board.vias.is_empty(), "expected a layer change to route around the F.Cu-only wall");
    let surviving = board
        .tracks
        .iter()
        .find(|t| t.id == wall.id)
        .expect("locked wall must still be present");
    assert_eq!(*surviving, wall, "locked item must be byte-for-byte unchanged after routing");
}

#[test]
fn no_corridor_exists_router_fails_rather_than_compromise_locks() {
    let mut board = base_board();
    let wall_f = add_locked_wall(&mut board, 0, LayerId(0));
    let wall_b = add_locked_wall(&mut board, 1, LayerId(1));
    let report = route_board(&mut board);
    assert_eq!(report.routed, 0, "no path exists on either layer; must not falsely succeed: {report:?}");
    assert_eq!(report.failed, vec![NetId(1)]);
    for wall in [&wall_f, &wall_b] {
        let surviving = board
            .tracks
            .iter()
            .find(|t| t.id == wall.id)
            .expect("locked wall must still be present");
        assert_eq!(*surviving, *wall, "locked item must be unchanged");
    }
    let after = board.find_unrouted_connections();
    assert_eq!(after.connections.len(), 1);
    assert_eq!(after.connections[0].net, NetId(1));
}
