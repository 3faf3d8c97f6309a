//! Routes one two-pin connection: builds the obstacle maps for a local
//! window around the connection, runs the A* search, and turns the found
//! path into straight track segments and vias.

use vstd::prelude::*;

use crate::detail::astar::{in_map, path_cost, search, valid_path, State};
use crate::detail::grid::{
    cell_point, map_matches, spec_cell_of, Cell, GridBounds, ObstacleMap, CELL_NM,
};
use crate::detail::obstacle::{lemma_obstacles_ok, obstacles_from_board, spec_obstacles};
use crate::geom::point::{coord_in_range, Point};
use crate::geom::predicates::{orient, spec_orient, Orientation};
use crate::geom::segment::Segment;
use crate::model::board::{class_of, dim_ok, Board};
use crate::model::connection::Connection;
use crate::model::items::{Layer, LayerId};

verus! {

/// Room added around a connection's endpoints (and waypoints) when sizing
/// the local search window.
pub const SEARCH_MARGIN_NM: i64 = 3_000_000;

/// A routed path: straight segments in path order, each with its layer,
/// and the via positions where the path changes layer.
#[derive(Debug)]
pub struct RoutedPath {
    pub segments: Vec<(Segment, LayerId)>,
    pub vias: Vec<Point>,
}

impl View for RoutedPath {
    type V = (Seq<(Segment, LayerId)>, Seq<Point>);

    open spec fn view(&self) -> Self::V {
        (self.segments@, self.vias@)
    }
}

/// Every segment and via of a route lies within the coordinate range.
pub open spec fn routed_in_range(v: (Seq<(Segment, LayerId)>, Seq<Point>)) -> bool {
    segments_in_range(v.0) && points_in_range(v.1)
}

pub open spec fn segments_in_range(s: Seq<(Segment, LayerId)>) -> bool {
    forall|i: int| 0 <= i < s.len() ==> (#[trigger] s[i]).0.in_range()
}

pub open spec fn points_in_range(v: Seq<Point>) -> bool {
    forall|i: int| 0 <= i < v.len() ==> (#[trigger] v[i]).in_range()
}

/// The segments of one same-layer run of points `pts[k..]`, where the
/// current segment runs from `start` to `prev`: a new segment begins
/// wherever the next point is not exactly collinear.
pub open spec fn emit_from(pts: Seq<Point>, k: int, start: Point, prev: Point, layer: LayerId) -> Seq<
    (Segment, LayerId),
>
    decreases pts.len() - k,
{
    if k < 0 || k >= pts.len() {
        seq![(Segment { a: start, b: prev }, layer)]
    } else if spec_orient(start, prev, pts[k]) != Orientation::Collinear {
        seq![(Segment { a: start, b: prev }, layer)] + emit_from(pts, k + 1, prev, pts[k], layer)
    } else {
        emit_from(pts, k + 1, start, pts[k], layer)
    }
}

/// One segment per straight stretch of a same-layer run of points (none
/// for fewer than two points).
pub open spec fn run_segments(pts: Seq<Point>, layer: LayerId) -> Seq<(Segment, LayerId)> {
    if pts.len() < 2 {
        Seq::empty()
    } else {
        emit_from(pts, 1, pts[0], pts[0], layer)
    }
}

pub open spec fn state_points(path: Seq<State>, origin: Point) -> Seq<Point> {
    path.map_values(|s: State| cell_point(s.cell, origin))
}

/// The segments and vias of `path[run_start..]` from position `i` on,
/// where the current same-layer run began at `run_start`.
pub open spec fn routed_from(
    path: Seq<State>,
    origin: Point,
    layers: Seq<LayerId>,
    i: int,
    run_start: int,
) -> (Seq<(Segment, LayerId)>, Seq<Point>)
    decreases path.len() - i,
{
    if i >= path.len() || i < 1 {
        if 0 <= run_start < path.len() {
            (
                run_segments(
                    state_points(path.subrange(run_start, path.len() as int), origin),
                    layers[path[run_start].layer as int],
                ),
                Seq::empty(),
            )
        } else {
            (Seq::empty(), Seq::empty())
        }
    } else if path[i].layer != path[i - 1].layer {
        let rest = routed_from(path, origin, layers, i + 1, i);
        (
            run_segments(
                state_points(path.subrange(run_start, i), origin),
                layers[path[i - 1].layer as int],
            ) + rest.0,
            seq![cell_point(path[i - 1].cell, origin)] + rest.1,
        )
    } else {
        routed_from(path, origin, layers, i + 1, run_start)
    }
}

/// The routed form of a path of states: each same-layer run becomes its
/// straight segments, and each layer change a via at the cell left.
pub open spec fn spec_path_to_routed(path: Seq<State>, origin: Point, layers: Seq<LayerId>) -> (
    Seq<(Segment, LayerId)>,
    Seq<Point>,
) {
    routed_from(path, origin, layers, 1, 0)
}

pub open spec fn seq_min(s: Seq<i64>) -> int
    decreases s.len(),
{
    if s.len() == 0 {
        i64::MAX as int
    } else {
        let m = seq_min(s.drop_last());
        if s.last() < m {
            s.last() as int
        } else {
            m
        }
    }
}

pub open spec fn seq_max(s: Seq<i64>) -> int
    decreases s.len(),
{
    if s.len() == 0 {
        i64::MIN as int
    } else {
        let m = seq_max(s.drop_last());
        if s.last() > m {
            s.last() as int
        } else {
            m
        }
    }
}

pub open spec fn xs_of(c: &Connection, wps: Seq<Point>) -> Seq<i64> {
    seq![c.from.position.x, c.to.position.x] + wps.map_values(|p: Point| p.x)
}

pub open spec fn ys_of(c: &Connection, wps: Seq<Point>) -> Seq<i64> {
    seq![c.from.position.y, c.to.position.y] + wps.map_values(|p: Point| p.y)
}

/// The search window: the bounding box of the endpoints and waypoints,
/// grown by `SEARCH_MARGIN_NM` on every side. `None` when the window
/// leaves the coordinate range or its state count does not fit `usize`.
pub open spec fn route_window(c: &Connection, wps: Seq<Point>, n_layers: int) -> Option<GridBounds> {
    let origin = Point {
        x: (seq_min(xs_of(c, wps)) - SEARCH_MARGIN_NM) as i64,
        y: (seq_min(ys_of(c, wps)) - SEARCH_MARGIN_NM) as i64,
    };
    let far_x = seq_max(xs_of(c, wps)) + SEARCH_MARGIN_NM;
    let far_y = seq_max(ys_of(c, wps)) + SEARCH_MARGIN_NM;
    let w = (far_x - origin.x) / (CELL_NM as int) + 1;
    let h = (far_y - origin.y) / (CELL_NM as int) + 1;
    if !(coord_in_range(seq_min(xs_of(c, wps)) - SEARCH_MARGIN_NM) && coord_in_range(
        seq_min(ys_of(c, wps)) - SEARCH_MARGIN_NM,
    ) && coord_in_range(far_x) && coord_in_range(far_y)) {
        None
    } else if w * h > usize::MAX || w * h * n_layers > usize::MAX {
        None
    } else {
        Some(GridBounds { origin, width: w as i32, height: h as i32 })
    }
}

pub open spec fn layer_ids(layers: Seq<Layer>) -> Seq<LayerId> {
    layers.map_values(|l: Layer| l.id)
}

/// The first index of each of `eps`'s first `k` layers within `all`
/// (layers not in `all` are skipped), each paired with `cell`.
pub open spec fn endpoint_states_upto(eps: Seq<LayerId>, all: Seq<LayerId>, cell: Cell, k: int) -> Seq<
    (Cell, usize),
>
    decreases k,
{
    if k <= 0 {
        Seq::empty()
    } else {
        let prev = endpoint_states_upto(eps, all, cell, k - 1);
        match crate::detail::grid::layer_index_of(all, eps[k - 1]) {
            Some(i) => prev.push((cell, i as usize)),
            None => prev,
        }
    }
}

/// The search states of an endpoint at `pos`: its cell on each of its
/// layers the router covers; `None` when the cell lies outside the window
/// or no layer is covered.
pub open spec fn spec_endpoint_states(
    eps: Seq<LayerId>,
    all: Seq<LayerId>,
    pos: Point,
    bounds: GridBounds,
) -> Option<Seq<(Cell, usize)>> {
    let cell = spec_cell_of(pos, bounds.origin);
    let states = endpoint_states_upto(eps, all, cell, eps.len() as int);
    if !(0 <= cell.x < bounds.width && 0 <= cell.y < bounds.height) || states.len() == 0 {
        None
    } else {
        Some(states)
    }
}

/// Everything the search for `c` is set up from, when it can be: the
/// class of its net exists, the window fits, and both endpoints have
/// search states. Returns (window, track half-width, via half-width,
/// starts, goals).
pub open spec fn route_setup(b: &Board, c: &Connection, wps: Seq<Point>) -> Option<
    (GridBounds, int, int, Seq<(Cell, usize)>, Seq<(Cell, usize)>),
> {
    let layers = layer_ids(b.layers@);
    match class_of(b, c.net) {
        None => None,
        Some(ci) => match route_window(c, wps, layers.len() as int) {
            None => None,
            Some(bounds) => match (
                spec_endpoint_states(c.from.layers@, layers, c.from.position, bounds),
                spec_endpoint_states(c.to.layers@, layers, c.to.position, bounds),
            ) {
                (Some(starts), Some(goals)) => Some(
                    (
                        bounds,
                        b.net_classes@[ci].track_width_nm / 2,
                        b.net_classes@[ci].via_diameter_nm / 2,
                        starts,
                        goals,
                    ),
                ),
                _ => None,
            },
        },
    }
}

/// `m` and `vm` are the track and via maps the search for `c` runs on.
pub open spec fn route_maps(
    b: &Board,
    c: &Connection,
    bounds: GridBounds,
    half: int,
    via_half: int,
    m: &ObstacleMap,
    vm: &ObstacleMap,
) -> bool {
    &&& map_matches(m, b, spec_obstacles(b), c.net, half, bounds, layer_ids(b.layers@))
    &&& map_matches(vm, b, spec_obstacles(b), c.net, via_half, bounds, layer_ids(b.layers@))
}

/// The route `v` follows a valid path of least cost of the search set up
/// by `setup`.
pub open spec fn routes_to(
    b: &Board,
    c: &Connection,
    bounds: GridBounds,
    half: int,
    via_half: int,
    starts: Seq<(Cell, usize)>,
    goals: Seq<(Cell, usize)>,
    v: (Seq<(Segment, LayerId)>, Seq<Point>),
) -> bool {
    exists|m: ObstacleMap, vm: ObstacleMap, p: Seq<State>|
        #![trigger route_maps(b, c, bounds, half, via_half, &m, &vm), valid_path(&m, &vm, starts, goals, p)]
        route_maps(b, c, bounds, half, via_half, &m, &vm) && valid_path(&m, &vm, starts, goals, p) && (forall|q: Seq<State>|
            valid_path(&m, &vm, starts, goals, q) ==> path_cost(p) <= #[trigger] path_cost(q)) && v == spec_path_to_routed(
            p,
            bounds.origin,
            layer_ids(b.layers@),
        )
}

/// No path of the search set up by `setup` exists.
pub open spec fn unroutable(
    b: &Board,
    c: &Connection,
    bounds: GridBounds,
    half: int,
    via_half: int,
    starts: Seq<(Cell, usize)>,
    goals: Seq<(Cell, usize)>,
) -> bool {
    exists|m: ObstacleMap, vm: ObstacleMap|
        #![trigger route_maps(b, c, bounds, half, via_half, &m, &vm)]
        route_maps(b, c, bounds, half, via_half, &m, &vm) && forall|p: Seq<State>|
            !valid_path(&m, &vm, starts, goals, p)
}

proof fn lemma_maps_agree(
    b: &Board,
    c: &Connection,
    bounds: GridBounds,
    half: int,
    m1: &ObstacleMap,
    m2: &ObstacleMap,
)
    requires
        map_matches(m1, b, spec_obstacles(b), c.net, half, bounds, layer_ids(b.layers@)),
        map_matches(m2, b, spec_obstacles(b), c.net, half, bounds, layer_ids(b.layers@)),
    ensures
        m1.spec_layer_count() == m2.spec_layer_count(),
        forall|x: Cell| #[trigger] m1.spec_in_bounds(x) == m2.spec_in_bounds(x),
        forall|x: Cell, l: int| #[trigger] m1.blocked_at(x, l) == m2.blocked_at(x, l),
{
    assert forall|x: Cell, l: int| #[trigger] m1.blocked_at(x, l) == m2.blocked_at(x, l) by {
        if m1.spec_in_bounds(x) && 0 <= l < layer_ids(b.layers@).len() {
            assert(m1.blocked_at(x, l) == m2.blocked_at(x, l));
        }
    }
}

/// The search of a connection either routes it along a least-cost path or
/// finds that no path exists, never both.
pub proof fn lemma_routed_or_unroutable(
    b: &Board,
    c: &Connection,
    bounds: GridBounds,
    half: int,
    via_half: int,
    starts: Seq<(Cell, usize)>,
    goals: Seq<(Cell, usize)>,
    v: (Seq<(Segment, LayerId)>, Seq<Point>),
)
    requires
        routes_to(b, c, bounds, half, via_half, starts, goals, v),
    ensures
        !unroutable(b, c, bounds, half, via_half, starts, goals),
{
    let (m, vm, p) = choose|m: ObstacleMap, vm: ObstacleMap, p: Seq<State>|
        #![trigger route_maps(b, c, bounds, half, via_half, &m, &vm), valid_path(&m, &vm, starts, goals, p)]
        route_maps(b, c, bounds, half, via_half, &m, &vm) && valid_path(&m, &vm, starts, goals, p) && (forall|q: Seq<State>|
            valid_path(&m, &vm, starts, goals, q) ==> path_cost(p) <= #[trigger] path_cost(q)) && v == spec_path_to_routed(
            p,
            bounds.origin,
            layer_ids(b.layers@),
        );
    if unroutable(b, c, bounds, half, via_half, starts, goals) {
        let (m2, vm2) = choose|m2: ObstacleMap, vm2: ObstacleMap|
            #![trigger route_maps(b, c, bounds, half, via_half, &m2, &vm2)]
            route_maps(b, c, bounds, half, via_half, &m2, &vm2) && forall|q: Seq<State>|
                !valid_path(&m2, &vm2, starts, goals, q);
        lemma_maps_agree(b, c, bounds, half, &m, &m2);
        lemma_maps_agree(b, c, bounds, via_half, &vm, &vm2);
        lemma_valid_path_transfer(&m, &vm, &m2, &vm2, starts, goals, p);
    }
}

proof fn lemma_valid_path_transfer(
    m: &ObstacleMap,
    vm: &ObstacleMap,
    m2: &ObstacleMap,
    vm2: &ObstacleMap,
    starts: Seq<(Cell, usize)>,
    goals: Seq<(Cell, usize)>,
    p: Seq<State>,
)
    requires
        m.spec_layer_count() == m2.spec_layer_count(),
        forall|x: Cell| #[trigger] m.spec_in_bounds(x) == m2.spec_in_bounds(x),
        forall|x: Cell, l: int| #[trigger] m.blocked_at(x, l) == m2.blocked_at(x, l),
        vm.spec_layer_count() == vm2.spec_layer_count(),
        forall|x: Cell, l: int| #[trigger] vm.blocked_at(x, l) == vm2.blocked_at(x, l),
        valid_path(m, vm, starts, goals, p),
    ensures
        valid_path(m2, vm2, starts, goals, p),
{
    assert forall|i: int| 0 <= i < p.len() - 1 implies crate::detail::astar::legal_move(m2, vm2, #[trigger] p[i], p[i + 1]) by {
        assert(crate::detail::astar::legal_move(m, vm, p[i], p[i + 1]));
        if crate::detail::astar::via_move(m, vm, p[i], p[i + 1]) {
            if !crate::detail::astar::via_allowed(vm2, p[i].cell) {
                let l = choose|l: int| 0 <= l < vm2.spec_layer_count() && #[trigger] vm2.blocked_at(p[i].cell, l);
                assert(vm.blocked_at(p[i].cell, l));
            }
        } else {
            assert(m.spec_in_bounds(p[i + 1].cell));
            assert(crate::detail::astar::planar_move(m2, p[i], p[i + 1]));
        }
    }
    assert(!m2.blocked_at(p[0].cell, p[0].layer as int)) by {
        assert(!m.blocked_at(p[0].cell, p[0].layer as int));
    }
}

/// Routes `connection` along a least-cost path of a grid A* search over a
/// local window around its endpoints and `waypoints` (a corridor hint from
/// the global router: the window grows to cover them; it is no hard
/// constraint). Returns `None`
/// when the net's class is missing, the window does not fit, an endpoint
/// has no search state, or no path exists within the window.
pub fn route_connection(board: &Board, connection: &Connection, waypoints: &[Point]) -> (r: Option<
    RoutedPath,
>)
    requires
        board.geometry_valid(),
        connection.from.position.in_range(),
        connection.to.position.in_range(),
        forall|i: int| 0 <= i < waypoints@.len() ==> (#[trigger] waypoints@[i]).in_range(),
    ensures
        match route_setup(board, connection, waypoints@) {
            None => r is None,
            Some((bounds, half, via_half, starts, goals)) => match r {
                Some(rp) => routes_to(board, connection, bounds, half, via_half, starts, goals, rp@),
                None => unroutable(board, connection, bounds, half, via_half, starts, goals),
            },
        },
        r matches Some(rp) ==> routed_in_range(rp@),
{
    let class_index = match board.net_class_index(connection.net) {
        Some(i) => i,
        None => return None,
    };
    let net_class = &board.net_classes[class_index];
    let route_half_width_nm = net_class.track_width_nm / 2;
    let layers = layer_ids_of(&board.layers);
    let bounds = match window(connection, waypoints, layers.len()) {
        Some(b) => b,
        None => return None,
    };
    let origin = bounds.origin;
    let obstacles = obstacles_from_board(board);
    proof {
        lemma_obstacles_ok(board);
        assert(dim_ok(board.net_classes@[class_index as int].track_width_nm as int));
    }
    let map = ObstacleMap::build(
        board,
        obstacles.as_slice(),
        connection.net,
        route_half_width_nm,
        bounds,
        layers.as_slice(),
    );
    let via_half_width_nm = net_class.via_diameter_nm / 2;
    let via_map = ObstacleMap::build(
        board,
        obstacles.as_slice(),
        connection.net,
        via_half_width_nm,
        bounds,
        layers.as_slice(),
    );
    let starts = match endpoint_states(&connection.from.layers, &layers, connection.from.position, bounds) {
        Some(s) => s,
        None => return None,
    };
    let goals = match endpoint_states(&connection.to.layers, &layers, connection.to.position, bounds) {
        Some(s) => s,
        None => return None,
    };
    proof {
        assert(route_maps(board, connection, bounds, route_half_width_nm as int, via_half_width_nm as int, &map, &via_map));
        assert(dim_ok(board.net_classes@[class_index as int].via_diameter_nm as int));
        assert(route_setup(board, connection, waypoints@) == Some((bounds, route_half_width_nm as int, via_half_width_nm as int, starts@, goals@)));
    }
    match search(&map, &via_map, starts.as_slice(), goals.as_slice()) {
        Some(path) => {
            proof {
                lemma_path_in_window(&map, &via_map, starts@, goals@, path@, bounds);
                assert forall|i: int| 0 <= i < path@.len() implies cell_point((#[trigger] path@[i]).cell, origin).in_range()
                    && path@[i].layer < layers@.len() by {
                    lemma_cell_in_window(path@[i].cell, bounds);
                }
            }
            let routed = path_to_routed(&path, origin, &layers);
            proof {
                assert(route_maps(board, connection, bounds, route_half_width_nm as int, via_half_width_nm as int, &map, &via_map)
                    && valid_path(&map, &via_map, starts@, goals@, path@)
                    && (forall|q: Seq<State>| valid_path(&map, &via_map, starts@, goals@, q) ==> path_cost(path@) <= #[trigger] path_cost(q))
                    && routed@ == spec_path_to_routed(path@, bounds.origin, layer_ids(board.layers@)));
                assert(routes_to(board, connection, bounds, route_half_width_nm as int, via_half_width_nm as int, starts@, goals@, routed@));
            }
            Some(routed)
        },
        None => {
            proof {
                assert(route_maps(board, connection, bounds, route_half_width_nm as int, via_half_width_nm as int, &map, &via_map)
                    && forall|p: Seq<State>| !valid_path(&map, &via_map, starts@, goals@, p));
                assert(unroutable(board, connection, bounds, route_half_width_nm as int, via_half_width_nm as int, starts@, goals@));
            }
            None
        },
    }
}


/// Turns a path of states into straight segments per same-layer run and a
/// via wherever the layer changes.
fn path_to_routed(path: &Vec<State>, origin: Point, layers: &Vec<LayerId>) -> (r: RoutedPath)
    requires
        origin.in_range(),
        forall|i: int|
            0 <= i < path@.len() ==> cell_point((#[trigger] path@[i]).cell, origin).in_range()
                && path@[i].layer < layers@.len(),
    ensures
        r@ == spec_path_to_routed(path@, origin, layers@),
        routed_in_range(r@),
{
    let ghost total = spec_path_to_routed(path@, origin, layers@);
    let mut segments: Vec<(Segment, LayerId)> = Vec::new();
    let mut vias: Vec<Point> = Vec::new();
    let mut run_start: usize = 0;
    let mut i: usize = 1;
    while i < path.len()
        invariant
            1 <= i,
            run_start < i,
            i <= path@.len() || path@.len() == 0,
            origin.in_range(),
            forall|j: int|
                0 <= j < path@.len() ==> cell_point((#[trigger] path@[j]).cell, origin).in_range()
                    && path@[j].layer < layers@.len(),
            segments@ + routed_from(path@, origin, layers@, i as int, run_start as int).0 == total.0,
            vias@ + routed_from(path@, origin, layers@, i as int, run_start as int).1 == total.1,
            segments_in_range(segments@),
            points_in_range(vias@),
        decreases path@.len() - i,
    {
        if path[i].layer != path[i - 1].layer {
            let ghost s0 = segments@;
            let ghost v0 = vias@;
            let ghost rest = routed_from(path@, origin, layers@, i + 1, i as int);
            let layer = layers[path[i - 1].layer];
            emit_run_segments(&mut segments, path, run_start, i, origin, layer);
            let via = path[i - 1].cell.to_point(origin);
            proof {
                assert(cell_point(path@[i - 1].cell, origin).in_range());
            }
            let ghost vb = vias@;
            vias.push(via);
            proof {
                assert forall|k: int| 0 <= k < vias@.len() implies (#[trigger] vias@[k]).in_range() by {
                    if k < vb.len() {
                        assert(vias@[k] == vb[k]);
                    }
                }
            }
            proof {
                assert(segments@ + rest.0 =~= s0 + routed_from(path@, origin, layers@, i as int, run_start as int).0);
                assert(vias@ + rest.1 =~= v0 + routed_from(path@, origin, layers@, i as int, run_start as int).1);
            }
            run_start = i;
        }
        i += 1;
    }
    if run_start < path.len() {
        let ghost s0 = segments@;
        let layer = layers[path[run_start].layer];
        emit_run_segments(&mut segments, path, run_start, path.len(), origin, layer);
        proof {
            assert(vias@ + Seq::<Point>::empty() =~= vias@);
        }
    } else {
        proof {
            assert(segments@ + Seq::<(Segment, LayerId)>::empty() =~= segments@);
            assert(vias@ + Seq::<Point>::empty() =~= vias@);
        }
    }
    RoutedPath { segments, vias }
}

/// Appends one segment per straight stretch of the same-layer run
/// `path[lo..hi]`, merging grid steps only while they stay exactly
/// collinear, so a bend is never cut across.
fn emit_run_segments(
    segments: &mut Vec<(Segment, LayerId)>,
    path: &Vec<State>,
    lo: usize,
    hi: usize,
    origin: Point,
    layer: LayerId,
)
    requires
        lo <= hi <= path@.len(),
        origin.in_range(),
        forall|i: int| 0 <= i < path@.len() ==> cell_point((#[trigger] path@[i]).cell, origin).in_range(),
    ensures
        final(segments)@ == old(segments)@ + run_segments(
            state_points(path@.subrange(lo as int, hi as int), origin),
            layer,
        ),
        segments_in_range(old(segments)@) ==> segments_in_range(final(segments)@),
{
    let ghost pts = state_points(path@.subrange(lo as int, hi as int), origin);
    if hi - lo < 2 {
        proof {
            assert(old(segments)@ + Seq::<(Segment, LayerId)>::empty() =~= old(segments)@);
        }
        return;
    }
    let ghost base = segments@;
    let mut segment_start = path[lo].cell.to_point(origin);
    let mut previous = segment_start;
    let mut k = lo + 1;
    proof {
        assert(pts[0] == segment_start);
    }
    while k < hi
        invariant
            lo < k <= hi <= path@.len(),
            origin.in_range(),
            pts == state_points(path@.subrange(lo as int, hi as int), origin),
            forall|i: int| 0 <= i < path@.len() ==> cell_point((#[trigger] path@[i]).cell, origin).in_range(),
            segment_start.in_range(),
            previous.in_range(),
            segments@ + emit_from(pts, k - lo, segment_start, previous, layer) == base + run_segments(pts, layer),
            segments@.len() >= base.len(),
            forall|i: int| 0 <= i < base.len() ==> segments@[i] == base[i],
            segments_in_range(base) ==> segments_in_range(segments@),
        decreases hi - k,
    {
        let point = path[k].cell.to_point(origin);
        proof {
            assert(pts[k - lo] == point);
        }
        let ghost s0 = segments@;
        if orient(segment_start, previous, point) != Orientation::Collinear {
            segments.push((Segment::new(segment_start, previous), layer));
            proof {
                assert(segments@ + emit_from(pts, k + 1 - lo, previous, point, layer) =~= s0 + emit_from(pts, k - lo, segment_start, previous, layer));
            }
            segment_start = previous;
        }
        previous = point;
        k += 1;
    }
    let ghost s1 = segments@;
    segments.push((Segment::new(segment_start, previous), layer));
    proof {
        assert(segments@ =~= s1 + emit_from(pts, k - lo, segment_start, previous, layer));
    }
}

pub(crate) fn layer_ids_of(layers: &Vec<Layer>) -> (r: Vec<LayerId>)
    ensures
        r@ == layer_ids(layers@),
{
    let mut r: Vec<LayerId> = Vec::new();
    let mut i: usize = 0;
    while i < layers.len()
        invariant
            i <= layers@.len(),
            r@ == layers@.subrange(0, i as int).map_values(|l: Layer| l.id),
        decreases layers@.len() - i,
    {
        r.push(layers[i].id);
        i += 1;
        proof {
            assert(r@ =~= layers@.subrange(0, i as int).map_values(|l: Layer| l.id));
        }
    }
    proof {
        assert(layers@.subrange(0, layers@.len() as int) =~= layers@);
    }
    r
}

/// The search window for `c` (see `route_window`).
fn window(c: &Connection, waypoints: &[Point], n_layers: usize) -> (r: Option<GridBounds>)
    requires
        c.from.position.in_range(),
        c.to.position.in_range(),
        forall|i: int| 0 <= i < waypoints@.len() ==> (#[trigger] waypoints@[i]).in_range(),
    ensures
        r == route_window(c, waypoints@, n_layers as int),
{
    let ghost xs = xs_of(c, waypoints@);
    let ghost ys = ys_of(c, waypoints@);
    let a = c.from.position;
    let b = c.to.position;
    let mut min_x = if a.x <= b.x { a.x } else { b.x };
    let mut max_x = if a.x >= b.x { a.x } else { b.x };
    let mut min_y = if a.y <= b.y { a.y } else { b.y };
    let mut max_y = if a.y >= b.y { a.y } else { b.y };
    proof {
        assert(xs[0] == a.x && xs[1] == b.x && ys[0] == a.y && ys[1] == b.y);
        assert(xs.subrange(0, 1).drop_last() =~= Seq::<i64>::empty());
        assert(xs.subrange(0, 2).drop_last() =~= xs.subrange(0, 1));
        assert(ys.subrange(0, 1).drop_last() =~= Seq::<i64>::empty());
        assert(ys.subrange(0, 2).drop_last() =~= ys.subrange(0, 1));
        assert(seq_min(Seq::<i64>::empty()) == i64::MAX);
        assert(seq_max(Seq::<i64>::empty()) == i64::MIN);
        assert(seq_min(xs.subrange(0, 1)) == a.x);
        assert(seq_max(xs.subrange(0, 1)) == a.x);
        assert(seq_min(ys.subrange(0, 1)) == a.y);
        assert(seq_max(ys.subrange(0, 1)) == a.y);
        assert(seq_min(xs.subrange(0, 2)) == min_x);
        assert(seq_max(xs.subrange(0, 2)) == max_x);
        assert(seq_min(ys.subrange(0, 2)) == min_y);
        assert(seq_max(ys.subrange(0, 2)) == max_y);
    }
    let mut k: usize = 0;
    while k < waypoints.len()
        invariant
            k <= waypoints@.len(),
            xs == xs_of(c, waypoints@),
            ys == ys_of(c, waypoints@),
            xs.len() == waypoints@.len() + 2,
            ys.len() == waypoints@.len() + 2,
            forall|i: int| 0 <= i < waypoints@.len() ==> (#[trigger] waypoints@[i]).in_range(),
            min_x == seq_min(xs.subrange(0, k + 2)),
            max_x == seq_max(xs.subrange(0, k + 2)),
            min_y == seq_min(ys.subrange(0, k + 2)),
            max_y == seq_max(ys.subrange(0, k + 2)),
            coord_in_range(min_x as int),
            coord_in_range(max_x as int),
            coord_in_range(min_y as int),
            coord_in_range(max_y as int),
        decreases waypoints@.len() - k,
    {
        let p = waypoints[k];
        proof {
            assert(xs[k + 2] == p.x && ys[k + 2] == p.y);
            assert(xs.subrange(0, k + 3).drop_last() =~= xs.subrange(0, k + 2));
            assert(ys.subrange(0, k + 3).drop_last() =~= ys.subrange(0, k + 2));
        }
        if p.x < min_x {
            min_x = p.x;
        }
        if p.x > max_x {
            max_x = p.x;
        }
        if p.y < min_y {
            min_y = p.y;
        }
        if p.y > max_y {
            max_y = p.y;
        }
        k += 1;
    }
    proof {
        assert(xs.subrange(0, xs.len() as int) =~= xs);
        assert(ys.subrange(0, ys.len() as int) =~= ys);
    }
    let ox = min_x - SEARCH_MARGIN_NM;
    let oy = min_y - SEARCH_MARGIN_NM;
    let fx = max_x + SEARCH_MARGIN_NM;
    let fy = max_y + SEARCH_MARGIN_NM;
    if !(-1_000_000_000 <= ox && ox <= 1_000_000_000 && -1_000_000_000 <= oy && oy <= 1_000_000_000
        && -1_000_000_000 <= fx && fx <= 1_000_000_000 && -1_000_000_000 <= fy && fy
        <= 1_000_000_000) {
        return None;
    }
    let w64 = (fx - ox) / CELL_NM + 1;
    let h64 = (fy - oy) / CELL_NM + 1;
    let w = w64 as usize;
    let h = h64 as usize;
    let wh = match w.checked_mul(h) {
        Some(v) => v,
        None => return None,
    };
    match wh.checked_mul(n_layers) {
        Some(_) => {},
        None => return None,
    }
    Some(GridBounds { origin: Point { x: ox, y: oy }, width: w64 as i32, height: h64 as i32 })
}

/// The search states of an endpoint (see `spec_endpoint_states`).
fn endpoint_states(
    endpoint_layers: &Vec<LayerId>,
    all_layers: &Vec<LayerId>,
    position: Point,
    bounds: GridBounds,
) -> (r: Option<Vec<(Cell, usize)>>)
    requires
        position.in_range(),
        bounds.origin.in_range(),
    ensures
        match (r, spec_endpoint_states(endpoint_layers@, all_layers@, position, bounds)) {
            (Some(v), Some(s)) => v@ == s,
            (None, None) => true,
            _ => false,
        },
{
    let cell = Cell::from_point(position, bounds.origin);
    if !(cell.x >= 0 && cell.y >= 0 && cell.x < bounds.width && cell.y < bounds.height) {
        return None;
    }
    let mut states: Vec<(Cell, usize)> = Vec::new();
    let mut k: usize = 0;
    while k < endpoint_layers.len()
        invariant
            k <= endpoint_layers@.len(),
            cell == spec_cell_of(position, bounds.origin),
            states@ == endpoint_states_upto(endpoint_layers@, all_layers@, cell, k as int),
        decreases endpoint_layers@.len() - k,
    {
        let layer = endpoint_layers[k];
        let mut j: usize = 0;
        while j < all_layers.len() && all_layers[j] != layer
            invariant
                j <= all_layers@.len(),
                crate::detail::grid::first_pos(all_layers@, layer, j as int).is_none(),
            decreases all_layers@.len() - j,
        {
            j += 1;
        }
        proof {
            if j < all_layers@.len() {
                assert(crate::detail::grid::first_pos(all_layers@, layer, j + 1) == Some(j as int));
                crate::detail::grid::lemma_first_pos_stable(all_layers@, layer, j + 1, all_layers@.len() as int);
            }
        }
        if j < all_layers.len() {
            states.push((cell, j));
        }
        k += 1;
    }
    if states.len() == 0 {
        None
    } else {
        Some(states)
    }
}

/// The centre of a cell of the window lies between its corners.
proof fn lemma_cell_in_window(c: Cell, bounds: GridBounds)
    requires
        bounds.origin.in_range(),
        0 <= c.x < bounds.width,
        0 <= c.y < bounds.height,
        coord_in_range(bounds.origin.x + (bounds.width - 1) * CELL_NM),
        coord_in_range(bounds.origin.y + (bounds.height - 1) * CELL_NM),
    ensures
        cell_point(c, bounds.origin).in_range(),
{
    assert(c.x * CELL_NM <= (bounds.width - 1) * CELL_NM) by (nonlinear_arith)
        requires c.x <= bounds.width - 1;
    assert(c.y * CELL_NM <= (bounds.height - 1) * CELL_NM) by (nonlinear_arith)
        requires c.y <= bounds.height - 1;
    assert(c.x * CELL_NM >= 0) by (nonlinear_arith)
        requires c.x >= 0;
    assert(c.y * CELL_NM >= 0) by (nonlinear_arith)
        requires c.y >= 0;
}

/// Every state of a valid path lies in the window, so its cell centre is
/// in the coordinate range.
proof fn lemma_path_in_window(
    m: &ObstacleMap,
    vm: &ObstacleMap,
    starts: Seq<(Cell, usize)>,
    goals: Seq<(Cell, usize)>,
    p: Seq<State>,
    bounds: GridBounds,
)
    requires
        valid_path(m, vm, starts, goals, p),
        m.spec_origin() == bounds.origin,
        m.spec_width() == bounds.width,
        m.spec_height() == bounds.height,
    ensures
        forall|i: int| 0 <= i < p.len() ==> in_map(m, #[trigger] p[i]),
{
    assert forall|i: int| 0 <= i < p.len() implies in_map(m, #[trigger] p[i]) by {
        lemma_path_state_in_map(m, vm, starts, goals, p, i);
    }
}

proof fn lemma_path_state_in_map(
    m: &ObstacleMap,
    vm: &ObstacleMap,
    starts: Seq<(Cell, usize)>,
    goals: Seq<(Cell, usize)>,
    p: Seq<State>,
    i: int,
)
    requires
        valid_path(m, vm, starts, goals, p),
        0 <= i < p.len(),
    ensures
        in_map(m, p[i]),
    decreases i,
{
    if i > 0 {
        lemma_path_state_in_map(m, vm, starts, goals, p, i - 1);
        assert(crate::detail::astar::legal_move(m, vm, p[i - 1], p[i]));
    }
}

} // verus!
